use vstd::prelude::*;

use crate::commit_graph::{CommitGraphIndex, GraphNode};
use crate::entry::{TreeLog, TreeStore};
use crate::error::{CursorError, Error};
use crate::history::CommitFrontier;
use crate::model::{
    commit_response_bytes, ChangeKind, Commit, HistoryTraversal, Page, TreeEntry,
};
use crate::oid::ObjectId;
use crate::path::{copy_bytes, same_bytes, GitPath};
use crate::path_probe::{CommitLog, PathProbe, ProbeRequest};

verus! {

/// Where the history of a path continues.
#[derive(Debug, PartialEq, Eq)]
pub struct PathHistoryCursor {
    pub start: ObjectId,
    pub mode: HistoryTraversal,
    pub path: Vec<u8>,
    pub skip: u64,
}

/// A commit that changed a path, and how.
#[derive(Debug, PartialEq, Eq)]
pub struct PathHistoryEntry {
    pub commit: Commit,
    pub kind: ChangeKind,
}

/// Read the continuation of a path's history, which belongs to one start, mode
/// and path.
pub fn path_history_skip(
    start: ObjectId,
    mode: HistoryTraversal,
    path: &GitPath,
    after: Option<&PathHistoryCursor>,
) -> (result: Result<u64, Error>)
    ensures
        result == (match after {
            None => Ok::<u64, Error>(0),
            Some(cursor) => if cursor.start == start && cursor.mode == mode && cursor.path@
                == path@ {
                Ok(cursor.skip)
            } else {
                Err(Error::InvalidCursor { reason: CursorError::ContextMismatch })
            },
        }),
{
    match after {
        None => Ok(0),
        Some(cursor) => if cursor.start != start || cursor.mode != mode || !same_bytes(
            cursor.path.as_slice(),
            path.as_bytes(),
        ) {
            Err(Error::InvalidCursor { reason: CursorError::ContextMismatch })
        } else {
            Ok(cursor.skip)
        },
    }
}

/// The commits of a list that changed a path, each with its kind of change.
pub open spec fn path_items(
    commits: Map<ObjectId, Commit>,
    trees: TreeStore,
    mode: HistoryTraversal,
    path: Seq<u8>,
    oids: Seq<ObjectId>,
) -> Seq<(Commit, ChangeKind)>
    decreases oids.len(),
{
    if oids.len() == 0 {
        Seq::empty()
    } else {
        let rest = path_items(commits, trees, mode, path, oids.drop_last());
        let commit = commits[oids.last()];
        match crate::path_probe::path_change_at(commits, trees, mode, commit, path) {
            Some(kind) => rest.push((commit, kind)),
            None => rest,
        }
    }
}

proof fn lemma_path_items_split(
    commits: Map<ObjectId, Commit>,
    trees: TreeStore,
    mode: HistoryTraversal,
    path: Seq<u8>,
    left: Seq<ObjectId>,
    right: Seq<ObjectId>,
)
    ensures
        path_items(commits, trees, mode, path, left + right) == path_items(
            commits,
            trees,
            mode,
            path,
            left,
        ) + path_items(commits, trees, mode, path, right),
    decreases right.len(),
{
    if right.len() == 0 {
        assert(left + right =~= left);
        assert(path_items(commits, trees, mode, path, left + right) =~= path_items(
            commits,
            trees,
            mode,
            path,
            left,
        ) + path_items(commits, trees, mode, path, right));
    } else {
        lemma_path_items_split(commits, trees, mode, path, left, right.drop_last());
        assert((left + right).drop_last() =~= left + right.drop_last());
        assert(path_items(commits, trees, mode, path, left + right) =~= path_items(
            commits,
            trees,
            mode,
            path,
            left,
        ) + path_items(commits, trees, mode, path, right));
    }
}

/// Of some commits, exactly those that changed the path are shown, each as often as it is
/// listed, in the order of the list, and with the change that it made.
pub proof fn every_change_is_shown_in_order(
    commits: Map<ObjectId, Commit>,
    trees: TreeStore,
    mode: HistoryTraversal,
    path: Seq<u8>,
    oids: Seq<ObjectId>,
)
    ensures
        ({
            let changed = |oid: ObjectId|
                crate::path_probe::path_change_at(commits, trees, mode, commits[oid], path)
                    is Some;
            let shown = |oid: ObjectId|
                (
                    commits[oid],
                    crate::path_probe::path_change_at(commits, trees, mode, commits[oid], path)->0,
                );
            path_items(commits, trees, mode, path, oids) == oids.filter(changed).map_values(shown)
        }),
    decreases oids.len(),
{
    reveal(Seq::filter);
    let changed = |oid: ObjectId|
        crate::path_probe::path_change_at(commits, trees, mode, commits[oid], path) is Some;
    let shown = |oid: ObjectId|
        (
            commits[oid],
            crate::path_probe::path_change_at(commits, trees, mode, commits[oid], path)->0,
        );
    if oids.len() > 0 {
        every_change_is_shown_in_order(commits, trees, mode, path, oids.drop_last());
        let rest = oids.drop_last().filter(changed);
        assert(rest.push(oids.last()).map_values(shown) =~= rest.map_values(shown).push(
            shown(oids.last()),
        ));
    }
    assert(path_items(commits, trees, mode, path, oids) =~= oids.filter(changed).map_values(shown));
}

/// A page of a path's history shows what changed among the commits it looked at, no more
/// than it has room for, and it goes on only where the history goes on: behind the
/// change that filled it, at the next commit.
pub proof fn what_a_page_of_changes_shows(
    commits: Map<ObjectId, Commit>,
    trees: TreeStore,
    mode: HistoryTraversal,
    graph: Option<Map<ObjectId, GraphNode>>,
    start: ObjectId,
    path: Seq<u8>,
    skip: u64,
    limit: usize,
    end: nat,
    page: Page<PathHistoryEntry, PathHistoryCursor>,
)
    requires
        is_path_history_page(commits, trees, mode, graph, start, path, skip, limit, end, page),
        limit > 0,
    ensures
        ({
            let order = crate::history::history_order(commits, mode, graph, start, end);
            let more = crate::history::history_order(commits, mode, graph, start, end + 1).len()
                > end;
            let looked = if skip < end {
                order.subrange(skip as int, end as int)
            } else {
                Seq::<ObjectId>::empty()
            };
            let changed = |oid: ObjectId|
                crate::path_probe::path_change_at(commits, trees, mode, commits[oid], path)
                    is Some;
            let found = looked.filter(changed);
            &&& order.len() == end
            &&& page.items@.len() == found.len()
            &&& page.items@.len() <= limit
            &&& forall|i: int|
                0 <= i < found.len() ==> (#[trigger] page.items@[i]).commit == commits[found[i]]
                    && crate::path_probe::path_change_at(
                    commits,
                    trees,
                    mode,
                    commits[found[i]],
                    path,
                ) == Some(page.items@[i].kind)
            &&& page.next is Some <==> more
            &&& more ==> page.items@.len() == limit && changed(looked.last())
            &&& page.next matches Some(cursor) ==> cursor.start == start && cursor.mode == mode
                && cursor.path@ == path && cursor.skip == end
        }),
{
    let order = crate::history::history_order(commits, mode, graph, start, end);
    let looked = between(order, skip as int, end as int);
    let changed = |oid: ObjectId|
        crate::path_probe::path_change_at(commits, trees, mode, commits[oid], path) is Some;
    let found = looked.filter(changed);
    let values = item_values(page.items@);
    every_change_is_shown_in_order(commits, trees, mode, path, looked);
    assert(values.len() == found.len());
    assert forall|i: int| 0 <= i < found.len() implies (#[trigger] page.items@[i]).commit
        == commits[found[i]] && crate::path_probe::path_change_at(
        commits,
        trees,
        mode,
        commits[found[i]],
        path,
    ) == Some(page.items@[i].kind) by {
        assert(values[i] == (page.items@[i].commit, page.items@[i].kind));
        looked.lemma_filter_pred(changed, i);
    }
    if crate::history::history_order(commits, mode, graph, start, end + 1).len() > end {
        assert(looked.drop_last() =~= between(order, skip as int, end - 1));
    }
}

/// The commits between two positions of a history.
pub open spec fn between(order: Seq<ObjectId>, from: int, to: int) -> Seq<ObjectId> {
    if from < to {
        order.subrange(from, to)
    } else {
        Seq::empty()
    }
}

proof fn lemma_path_items_between(
    commits: Map<ObjectId, Commit>,
    trees: TreeStore,
    mode: HistoryTraversal,
    path: Seq<u8>,
    order: Seq<ObjectId>,
    from: int,
    middle: int,
    to: int,
)
    requires
        0 <= from <= middle <= to <= order.len(),
    ensures
        path_items(commits, trees, mode, path, between(order, from, middle)) + path_items(
            commits,
            trees,
            mode,
            path,
            between(order, middle, to),
        ) == path_items(commits, trees, mode, path, between(order, from, to)),
{
    lemma_path_items_split(
        commits,
        trees,
        mode,
        path,
        between(order, from, middle),
        between(order, middle, to),
    );
    assert(between(order, from, middle) + between(order, middle, to) =~= between(order, from, to));
}

/// The contents of a page's items.
pub open spec fn item_values(items: Seq<PathHistoryEntry>) -> Seq<(Commit, ChangeKind)> {
    items.map_values(|item: PathHistoryEntry| (item.commit, item.kind))
}

/// A page of a path's history that looked at the first `end` commits: it shows
/// every change from its start on, ends with the change that filled it, and
/// continues where it ended unless the history has ended too.
pub open spec fn is_path_history_page(
    commits: Map<ObjectId, Commit>,
    trees: TreeStore,
    mode: HistoryTraversal,
    graph: Option<Map<ObjectId, GraphNode>>,
    start: ObjectId,
    path: Seq<u8>,
    skip: u64,
    limit: usize,
    end: nat,
    page: Page<PathHistoryEntry, PathHistoryCursor>,
) -> bool {
    let order = crate::history::history_order(commits, mode, graph, start, end);
    let more = crate::history::history_order(commits, mode, graph, start, end + 1).len() > end;
    let shown = path_items(commits, trees, mode, path, between(order, skip as int, end as int));
    &&& order.len() == end
    &&& item_values(page.items@) == shown
    &&& limit > 0 ==> shown.len() <= limit
    &&& limit > 0 && shown.len() == limit ==> end > skip && path_items(
        commits,
        trees,
        mode,
        path,
        between(order, skip as int, end - 1),
    ).len() < limit
    &&& more ==> shown.len() == limit && page.next is Some
    &&& !more ==> page.next is None
    &&& page.next matches Some(cursor) ==> {
        &&& cursor.start == start
        &&& cursor.mode == mode
        &&& cursor.path@ == path
        &&& cursor.skip == end
    }
}

/// A page and the page that its cursor leads to show, together, every change from
/// the first page's start to the second page's end: none is repeated or lost.
pub proof fn path_history_pages_continue(
    commits: Map<ObjectId, Commit>,
    trees: TreeStore,
    mode: HistoryTraversal,
    graph: Option<Map<ObjectId, GraphNode>>,
    start: ObjectId,
    path: Seq<u8>,
    skip: u64,
    limit: usize,
    middle: nat,
    first: Page<PathHistoryEntry, PathHistoryCursor>,
    next_limit: usize,
    end: nat,
    second: Page<PathHistoryEntry, PathHistoryCursor>,
)
    requires
        is_path_history_page(
            commits,
            trees,
            mode,
            graph,
            start,
            path,
            skip,
            limit,
            middle,
            first,
        ),
        first.next is Some,
        next_limit > 0,
        is_path_history_page(
            commits,
            trees,
            mode,
            graph,
            start,
            path,
            (first.next->0).skip,
            next_limit,
            end,
            second,
        ),
        limit > 0,
    ensures
        middle <= end,
        item_values(first.items@) + item_values(second.items@) == path_items(
            commits,
            trees,
            mode,
            path,
            between(
                crate::history::history_order(commits, mode, graph, start, end),
                skip as int,
                end as int,
            ),
        ),
{
    let whole = crate::history::history_order(commits, mode, graph, start, end);
    let begun = crate::history::history_order(commits, mode, graph, start, middle);
    if end < middle {
        crate::history::shorter_history_is_a_prefix(commits, mode, graph, start, end + 1, middle);
    }
    crate::history::shorter_history_is_a_prefix(commits, mode, graph, start, middle, end);
    assert(between(begun, skip as int, middle as int) =~= between(
        whole,
        skip as int,
        middle as int,
    ));
    lemma_path_items_between(
        commits,
        trees,
        mode,
        path,
        whole,
        skip as int,
        middle as int,
        end as int,
    );
}

/// Where a page of a chain begins: where the page before it continues.
pub open spec fn path_chain_skip(
    pages: Seq<Page<PathHistoryEntry, PathHistoryCursor>>,
    at: int,
) -> u64 {
    if at <= 0 {
        0
    } else {
        match pages[at - 1].next {
            Some(cursor) => cursor.skip,
            None => 0,
        }
    }
}

/// Pages of one size from the beginning of a path's history, each continuing the one
/// before it, up to the page that continues nowhere. Each page has looked at the
/// commits before its own end.
pub open spec fn is_path_history_chain(
    commits: Map<ObjectId, Commit>,
    trees: TreeStore,
    mode: HistoryTraversal,
    graph: Option<Map<ObjectId, GraphNode>>,
    start: ObjectId,
    path: Seq<u8>,
    limit: usize,
    ends: Seq<nat>,
    pages: Seq<Page<PathHistoryEntry, PathHistoryCursor>>,
) -> bool {
    &&& pages.len() > 0
    &&& ends.len() == pages.len()
    &&& forall|i: int|
        0 <= i < pages.len() ==> is_path_history_page(
            commits,
            trees,
            mode,
            graph,
            start,
            path,
            path_chain_skip(pages, i),
            limit,
            ends[i],
            #[trigger] pages[i],
        )
    &&& forall|i: int|
        0 <= i < pages.len() ==> ((#[trigger] pages[i]).next is Some <==> i < pages.len() - 1)
}

proof fn lemma_path_history_chain(
    commits: Map<ObjectId, Commit>,
    trees: TreeStore,
    mode: HistoryTraversal,
    graph: Option<Map<ObjectId, GraphNode>>,
    start: ObjectId,
    path: Seq<u8>,
    limit: usize,
    ends: Seq<nat>,
    pages: Seq<Page<PathHistoryEntry, PathHistoryCursor>>,
    count: nat,
)
    requires
        limit > 0,
        is_path_history_chain(commits, trees, mode, graph, start, path, limit, ends, pages),
        0 < count <= pages.len(),
    ensures
        item_values(crate::model::shown_by(pages.take(count as int))) == path_items(
            commits,
            trees,
            mode,
            path,
            crate::history::history_order(commits, mode, graph, start, ends[count - 1]),
        ),
    decreases count,
{
    let page = pages[count - 1];
    let end = ends[count - 1];
    let order = crate::history::history_order(commits, mode, graph, start, end);
    assert(is_path_history_page(
        commits,
        trees,
        mode,
        graph,
        start,
        path,
        path_chain_skip(pages, count - 1),
        limit,
        end,
        pages[count - 1],
    ));
    let shown = pages.take(count as int);
    crate::model::one_more_page_is_shown(pages, count as int);
    assert(between(order, 0, end as int) =~= order);
    if count == 1 {
        assert(crate::model::shown_by(shown) =~= page.items@);
    } else {
        let earlier = pages[count - 2];
        let middle = ends[count - 2];
        lemma_path_history_chain(
            commits,
            trees,
            mode,
            graph,
            start,
            path,
            limit,
            ends,
            pages,
            (count - 1) as nat,
        );
        assert(is_path_history_page(
            commits,
            trees,
            mode,
            graph,
            start,
            path,
            path_chain_skip(pages, count - 2),
            limit,
            middle,
            pages[count - 2],
        ));
        path_history_pages_continue(
            commits,
            trees,
            mode,
            graph,
            start,
            path,
            path_chain_skip(pages, count - 2),
            limit,
            middle,
            earlier,
            limit,
            end,
            page,
        );
        let begun = crate::history::history_order(commits, mode, graph, start, middle);
        crate::history::shorter_history_is_a_prefix(commits, mode, graph, start, middle, end);
        lemma_path_items_between(
            commits,
            trees,
            mode,
            path,
            order,
            0,
            middle as int,
            end as int,
        );
        assert(between(order, 0, middle as int) =~= begun);
        assert(item_values(crate::model::shown_by(shown)) =~= item_values(
            crate::model::shown_by(pages.take(count - 1)),
        ) + item_values(page.items@));
    }
}

/// The pages of a path's history, followed until there is no next one, show every
/// commit of the whole history that changed the path, each exactly once, in the order
/// of the history and with its kind of change. No page shows more than its size, and
/// only a full page continues.
pub proof fn chained_path_history_is_the_whole_history(
    commits: Map<ObjectId, Commit>,
    trees: TreeStore,
    mode: HistoryTraversal,
    graph: Option<Map<ObjectId, GraphNode>>,
    start: ObjectId,
    path: Seq<u8>,
    limit: usize,
    ends: Seq<nat>,
    pages: Seq<Page<PathHistoryEntry, PathHistoryCursor>>,
)
    requires
        limit > 0,
        is_path_history_chain(commits, trees, mode, graph, start, path, limit, ends, pages),
    ensures
        ({
            let all = crate::history::history_order(commits, mode, graph, start, ends.last());
            &&& all == crate::history::history_order(
                commits,
                mode,
                graph,
                start,
                ends.last() + 1,
            )
            &&& item_values(crate::model::shown_by(pages)) == path_items(
                commits,
                trees,
                mode,
                path,
                all,
            )
            &&& forall|i: int|
                0 <= i < pages.len() ==> (#[trigger] pages[i]).items@.len() <= limit && (
                pages[i].next is Some ==> pages[i].items@.len() == limit)
        }),
{
    lemma_path_history_chain(
        commits,
        trees,
        mode,
        graph,
        start,
        path,
        limit,
        ends,
        pages,
        pages.len(),
    );
    assert(pages.take(pages.len() as int) =~= pages);
    let last = pages[pages.len() - 1];
    assert(is_path_history_page(
        commits,
        trees,
        mode,
        graph,
        start,
        path,
        path_chain_skip(pages, pages.len() - 1),
        limit,
        ends[pages.len() - 1],
        last,
    ));
    let end = ends.last();
    crate::history::shorter_history_is_a_prefix(commits, mode, graph, start, end, end + 1);
    assert(crate::history::history_order(commits, mode, graph, start, end)
        =~= crate::history::history_order(commits, mode, graph, start, end + 1));
    assert forall|i: int| 0 <= i < pages.len() implies (#[trigger] pages[i]).items@.len() <= limit
        && (pages[i].next is Some ==> pages[i].items@.len() == limit) by {
        assert(item_values(pages[i].items@).len() == pages[i].items@.len());
    }
}

/// What the history of a path needs next.
#[derive(Debug, PartialEq, Eq)]
pub enum PathHistoryRequest {
    /// Account for a commit and read it.
    Visit { oid: ObjectId },
    /// Read a parent commit to compare with.
    Parent { oid: ObjectId },
    /// Read a tree, list it under a path, and account for its depth.
    Tree { oid: ObjectId, parent: GitPath, depth: u64 },
    /// Account for the size of an item.
    Show { response_bytes: u64 },
    /// The page is complete.
    Done,
}

/// One page of the history of a path.
pub struct PathHistoryWalk<'a> {
    path: &'a GitPath,
    start: ObjectId,
    mode: HistoryTraversal,
    skip: u64,
    limit: usize,
    frontier: CommitFrontier<'a>,
    traversed: u64,
    items: Vec<PathHistoryEntry>,
    filled: bool,
    probed: Option<Commit>,
    probe: Option<PathProbe<'a>>,
    verdict: Option<ChangeKind>,
    tree_log: Ghost<TreeLog>,
    commit_log: Ghost<CommitLog>,
}

/// The size charged for showing an item.
pub open spec fn item_bytes(commit: Commit) -> int {
    crate::memory::clamp_usize(commit@.response_bytes()) + vstd::layout::size_of::<
        PathHistoryEntry,
    >()
}

/// An item is charged its fixed part and what its commit is.
pub proof fn what_an_item_is_charged(commit: Commit)
    requires
        0 <= commit@.response_bytes() <= usize::MAX,
    ensures
        item_bytes(commit) == vstd::layout::size_of::<PathHistoryEntry>()
            + commit@.response_bytes(),
{
}

impl<'a> PathHistoryWalk<'a> {
    pub closed spec fn path(self) -> Seq<u8> {
        self.path@
    }

    pub closed spec fn start(self) -> ObjectId {
        self.start
    }

    pub closed spec fn mode(self) -> HistoryTraversal {
        self.mode
    }

    pub open spec fn graph(self) -> Option<Map<ObjectId, GraphNode>> {
        self.frontier().graph()
    }

    pub closed spec fn skip(self) -> u64 {
        self.skip
    }

    pub closed spec fn limit(self) -> usize {
        self.limit
    }

    /// The walk through the commits whose changes the page shows.
    pub closed spec fn frontier(self) -> CommitFrontier<'a> {
        self.frontier
    }

    /// The commits queued behind the one that is visited, the next one last.
    pub open spec fn queued(self) -> Seq<ObjectId> {
        self.frontier().queued()
    }

    /// The commits visited so far, in the order of the walk.
    pub open spec fn order(self) -> Seq<ObjectId> {
        self.frontier().order()
    }

    /// The entries taken into the page so far.
    pub closed spec fn taken(self) -> Seq<PathHistoryEntry> {
        self.items@
    }

    /// Whether the entry shown last has filled the page.
    pub closed spec fn filled(self) -> bool {
        self.filled
    }

    /// The commit that is wanted for the walk.
    pub open spec fn wants_visit(self) -> Option<ObjectId> {
        if self.comparison() is None && !self.filled() {
            self.frontier().awaiting()
        } else {
            None
        }
    }

    /// The comparison of the commit that was visited last, until it is settled.
    pub closed spec fn comparison(self) -> Option<PathProbe<'a>> {
        self.probe
    }

    /// The commit that is compared.
    pub closed spec fn compares(self) -> Option<Commit> {
        self.probed
    }

    /// The parent commit that is wanted for comparison.
    pub open spec fn wants_parent(self) -> Option<ObjectId> {
        match self.comparison() {
            Some(probe) => probe.wants_commit(),
            None => None,
        }
    }

    /// The tree that is wanted for comparison.
    pub open spec fn wants_tree(self) -> Option<(ObjectId, Seq<u8>, u64)> {
        match self.comparison() {
            Some(probe) => probe.wants_tree(),
            None => None,
        }
    }

    /// The commit whose comparison is finished.
    pub open spec fn compared(self) -> Option<Commit> {
        match self.comparison() {
            Some(probe) => if probe.done() && probe.wants_tree() is None {
                self.compares()
            } else {
                None
            },
            None => None,
        }
    }

    /// Whether two stores hold everything that was read.
    pub closed spec fn consistent(self, commits: Map<ObjectId, Commit>, trees: TreeStore) -> bool {
        &&& crate::replies::agrees(self.frontier.replies(), commits)
        &&& crate::replies::answers(self.commit_log@, commits)
        &&& crate::replies::answers(self.tree_log@, trees)
        &&& match self.probe {
            Some(probe) => crate::replies::answers(probe.commit_log(), commits)
                && crate::replies::answers(probe.tree_log(), trees),
            None => true,
        }
    }

    /// The commits whose comparison has been settled.
    spec fn judged(self) -> Seq<ObjectId> {
        between(
            self.order(),
            self.skip as int,
            if self.probe is Some {
                self.order().len() - 1
            } else {
                self.order().len() as int
            },
        )
    }

    pub closed spec fn wf(self) -> bool {
        &&& self.frontier.wf()
        &&& self.frontier.start() == self.start
        &&& self.frontier.mode() == self.mode
        &&& self.traversed == self.order().len()
        &&& self.limit > 0 && !self.filled ==> self.items@.len() < self.limit
        &&& self.filled ==> {
            &&& self.items@.len() == self.limit
            &&& self.probe is None
            &&& self.order().len() > self.skip
        }
        &&& self.probe is Some <==> self.probed is Some
        &&& match self.probe {
            Some(probe) => {
                let commit = self.probed->0;
                &&& probe.wf()
                &&& probe.path() == self.path@
                &&& probe.tree() == commit.tree
                &&& probe.parents() == crate::path_probe::compared_parents(self.mode, commit)
                &&& self.order().len() > self.skip
                &&& self.frontier.replies()[self.order().last()] == commit
            },
            None => true,
        }
        &&& forall|commits: Map<ObjectId, Commit>, trees: TreeStore| #[trigger]
            self.consistent(commits, trees) ==> item_values(self.items@) == path_items(
                commits,
                trees,
                self.mode,
                self.path@,
                self.judged(),
            )
        &&& forall|commits: Map<ObjectId, Commit>, trees: TreeStore| #[trigger]
            self.consistent(commits, trees) && self.filled && self.limit > 0 ==> path_items(
                commits,
                trees,
                self.mode,
                self.path@,
                between(self.order(), self.skip as int, self.order().len() - 1),
            ).len() < self.limit
    }

    /// The page can be taken: it is full, or the history has ended.
    pub open spec fn finished(self) -> bool {
        &&& self.comparison() is None
        &&& if self.frontier().awaiting() is Some {
            self.filled()
        } else {
            self.frontier().exhausted()
        }
    }

    /// Nothing has been asked for yet but the start.
    pub open spec fn is_new(self) -> bool {
        &&& self.order() == Seq::<ObjectId>::empty()
        &&& self.taken() == Seq::<PathHistoryEntry>::empty()
        &&& self.comparison() is None
        &&& !self.filled()
        &&& self.frontier().awaiting() is None
        &&& self.queued() == seq![self.start()]
        &&& forall|commits: Map<ObjectId, Commit>, trees: TreeStore| #[trigger]
            self.consistent(commits, trees)
    }

    /// Begin a page of the history of a path.
    pub fn new(
        path: &'a GitPath,
        start: ObjectId,
        mode: HistoryTraversal,
        graph: Option<&'a CommitGraphIndex>,
        skip: u64,
        limit: usize,
    ) -> (result: PathHistoryWalk<'a>)
        requires
            crate::commit_graph::graph_wf(graph),
        ensures
            result.wf(),
            result.path() == path@,
            result.start() == start,
            result.mode() == mode,
            result.graph() == crate::commit_graph::graph_view(graph),
            result.skip() == skip,
            result.limit() == limit,
            result.is_new(),
    {
        let walk = PathHistoryWalk {
            path,
            start,
            mode,
            skip,
            limit,
            frontier: CommitFrontier::new(start, mode, graph),
            traversed: 0,
            items: Vec::new(),
            filled: false,
            probed: None,
            probe: None,
            verdict: None,
            tree_log: Ghost(Seq::empty()),
            commit_log: Ghost(Seq::empty()),
        };
        assert(item_values(walk.items@) =~= Seq::empty());
        walk
    }

    /// Remember how the compared commit changed the path.
    fn decide(&mut self, verdict: Option<ChangeKind>)
        requires
            old(self).wf(),
        ensures
            *final(self) == (PathHistoryWalk { verdict, ..*old(self) }),
            final(self).wf(),
            forall|commits: Map<ObjectId, Commit>, trees: TreeStore| #[trigger]
                final(self).consistent(commits, trees) == old(self).consistent(commits, trees),
    {
        let ghost before = *self;
        self.verdict = verdict;
        proof {
            assert(self.judged() == before.judged());
            assert forall|commits: Map<ObjectId, Commit>, trees: TreeStore| #[trigger]
                self.consistent(commits, trees) == before.consistent(commits, trees) by {}
            assert forall|commits: Map<ObjectId, Commit>, trees: TreeStore| #[trigger]
                self.consistent(commits, trees) implies item_values(self.items@) == path_items(
                commits,
                trees,
                self.mode,
                self.path@,
                self.judged(),
            ) by {
                assert(before.consistent(commits, trees));
            }
            assert forall|commits: Map<ObjectId, Commit>, trees: TreeStore| #[trigger]
                self.consistent(commits, trees) && self.filled && self.limit > 0 implies path_items(
                commits,
                trees,
                self.mode,
                self.path@,
                between(self.order(), self.skip as int, self.order().len() - 1),
            ).len() < self.limit by {
                assert(before.consistent(commits, trees));
            }
        }
    }

    /// Settle a finished comparison that shows no change.
    fn settle(&mut self)
        requires
            old(self).wf(),
            old(self).compared() is Some,
            (old(self).probe->0).concludes(None),
        ensures
            final(self).wf(),
            final(self).path() == old(self).path(),
            final(self).start() == old(self).start(),
            final(self).mode() == old(self).mode(),
            final(self).graph() == old(self).graph(),
            final(self).skip() == old(self).skip(),
            final(self).limit() == old(self).limit(),
            final(self).order() == old(self).order(),
            final(self).probe is None,
            final(self).items == old(self).items,
            final(self).filled == old(self).filled,
            final(self).frontier == old(self).frontier,
            forall|commits: Map<ObjectId, Commit>, trees: TreeStore| #[trigger]
                final(self).consistent(commits, trees) == old(self).consistent(commits, trees),
    {
        let ghost before = *self;
        let ghost probe = self.probe->0;
        self.probe = None;
        self.probed = None;
        self.tree_log = Ghost(before.tree_log@ + probe.tree_log());
        self.commit_log = Ghost(before.commit_log@ + probe.commit_log());
        proof {
            assert forall|commits: Map<ObjectId, Commit>, trees: TreeStore| #[trigger]
                self.consistent(commits, trees) == before.consistent(commits, trees) by {
                lemma_joined(before.tree_log@, probe.tree_log(), trees);
                lemma_joined(before.commit_log@, probe.commit_log(), commits);
            }
            let oid = before.order().last();
            assert(self.judged() =~= before.judged().push(oid));
            assert(self.judged().drop_last() =~= before.judged());
            before.frontier.replies_cover_the_order();
            assert forall|commits: Map<ObjectId, Commit>, trees: TreeStore| #[trigger]
                self.consistent(commits, trees) implies item_values(self.items@) == path_items(
                commits,
                trees,
                self.mode,
                self.path@,
                self.judged(),
            ) by {
                assert(before.consistent(commits, trees));
                assert(before.frontier.replies().dom().contains(
                    before.order()[before.order().len() - 1],
                ));
            }
        }
    }

    /// What the history needs next. Asking again before it is handed back names
    /// the same need.
    pub fn next(&mut self) -> (result: PathHistoryRequest)
        requires
            old(self).wf(),
        ensures
            final(self).wf(),
            final(self).path() == old(self).path(),
            final(self).start() == old(self).start(),
            final(self).mode() == old(self).mode(),
            final(self).graph() == old(self).graph(),
            final(self).skip() == old(self).skip(),
            final(self).limit() == old(self).limit(),
            final(self).order() == old(self).order(),
            final(self).taken() == old(self).taken(),
            final(self).filled() == old(self).filled(),
            match old(self).comparison() {
                Some(probe) => if result is Show || probe.wants_tree() is Some
                    || probe.wants_commit() is Some {
                    final(self).comparison() == Some(probe) && final(self).compares() == old(
                        self,
                    ).compares()
                } else {
                    probe.concludes(None) && final(self).comparison() is None
                },
                None => final(self).comparison() is None,
            },
            if final(self).comparison() is Some {
                final(self).frontier() == old(self).frontier()
            } else {
                old(self).frontier().advances_to(final(self).frontier())
            },
            forall|commits: Map<ObjectId, Commit>, trees: TreeStore| #[trigger]
                final(self).consistent(commits, trees) == old(self).consistent(commits, trees),
            match result {
                PathHistoryRequest::Visit { oid } => final(self).wants_visit() == Some(oid)
                    && final(self).due(oid),
                PathHistoryRequest::Parent { oid } => final(self).wants_parent() == Some(oid),
                PathHistoryRequest::Tree { oid, parent, depth } => final(self).wants_tree() == Some(
                    (oid, parent@, depth),
                ),
                PathHistoryRequest::Show { response_bytes } => {
                    &&& final(self).compared() is Some
                    &&& final(self).shows_change()
                    &&& response_bytes == crate::memory::clamp_u64(
                        item_bytes(final(self).compared()->0),
                    )
                },
                PathHistoryRequest::Done => final(self).finished(),
            },
    {
        if let (Some(probe), Some(commit)) = (&self.probe, &self.probed) {
            match probe.next() {
                ProbeRequest::Tree { oid, parent, depth } => {
                    return PathHistoryRequest::Tree { oid, parent, depth };
                },
                ProbeRequest::Commit { oid } => {
                    return PathHistoryRequest::Parent { oid };
                },
                ProbeRequest::Done => {},
            }
            let verdict = probe.verdict();
            if verdict.is_some() {
                let response_bytes: u64 = commit_response_bytes(commit).saturating_add(
                    core::mem::size_of::<PathHistoryEntry>() as u64,
                );
                self.decide(verdict);
                return PathHistoryRequest::Show { response_bytes };
            }
            self.settle();
        }
        let ghost before = *self;
        let next = self.frontier.next();
        proof {
            assert(self.probe is None);
            assert(self.judged() == before.judged());
            assert forall|commits: Map<ObjectId, Commit>, trees: TreeStore| #[trigger]
                self.consistent(commits, trees) == before.consistent(commits, trees) by {}
            assert forall|commits: Map<ObjectId, Commit>, trees: TreeStore| #[trigger]
                self.consistent(commits, trees) implies item_values(self.items@) == path_items(
                commits,
                trees,
                self.mode,
                self.path@,
                self.judged(),
            ) by {
                assert(before.consistent(commits, trees));
            }
            assert forall|commits: Map<ObjectId, Commit>, trees: TreeStore| #[trigger]
                self.consistent(commits, trees) && self.filled && self.limit > 0 implies path_items(
                commits,
                trees,
                self.mode,
                self.path@,
                between(self.order(), self.skip as int, self.order().len() - 1),
            ).len() < self.limit by {
                assert(before.consistent(commits, trees));
            }
        }
        match next {
            Some(oid) => if self.filled {
                PathHistoryRequest::Done
            } else {
                PathHistoryRequest::Visit { oid }
            },
            None => PathHistoryRequest::Done,
        }
    }

    /// The commit that the history visits after those visited.
    pub open spec fn due(self, oid: ObjectId) -> bool {
        forall|commits: Map<ObjectId, Commit>, trees: TreeStore, count: nat|
            #![trigger self.consistent(commits, trees), crate::history::history_order(
                commits,
                self.mode(),
                self.graph(),
                self.start(),
                count,
            )]
            self.consistent(commits, trees) && count > self.order().len() ==> {
                let all = crate::history::history_order(
                    commits,
                    self.mode(),
                    self.graph(),
                    self.start(),
                    count,
                );
                all.len() > self.order().len() && all.subrange(0, 1 + self.order().len() as int)
                    == self.order().push(oid)
            }
    }

    /// Hand back the commit that was asked for the walk.
    pub fn accept_visit(&mut self, commit: Commit) -> (result: Result<(), Error>)
        requires
            old(self).wf(),
            old(self).wants_visit() is Some,
        ensures
            match result {
                Ok(()) => old(self).order().len() < u64::MAX,
                Err(error) => if old(self).order().len() == u64::MAX {
                    error == crate::history::too_many_commits()
                } else {
                    crate::history::no_room_for_parents(
                        old(self).mode(),
                        old(self).queued(),
                        old(self).graph(),
                        commit,
                        error,
                    )
                },
            },
            result is Ok ==> {
                &&& final(self).wf()
                &&& final(self).path() == old(self).path()
                &&& final(self).start() == old(self).start()
                &&& final(self).mode() == old(self).mode()
                &&& final(self).graph() == old(self).graph()
                &&& final(self).skip() == old(self).skip()
                &&& final(self).limit() == old(self).limit()
                &&& final(self).order() == old(self).order().push(old(self).wants_visit()->0)
                &&& final(self).taken() == old(self).taken()
                &&& !final(self).filled()
                &&& final(self).frontier().awaiting() is None
                &&& final(self).queued() == old(self).queued() + crate::history::followed(
                    old(self).mode(),
                    old(self).graph(),
                    commit,
                ).reverse()
                &&& if old(self).order().len() >= old(self).skip() {
                    &&& final(self).compares() == Some(commit)
                    &&& final(self).comparison() is Some
                    &&& (final(self).comparison()->0).begins(
                        old(self).path(),
                        old(self).mode(),
                        commit,
                    )
                } else {
                    final(self).comparison() is None
                }
                &&& forall|commits: Map<ObjectId, Commit>, trees: TreeStore| #[trigger]
                    final(self).consistent(commits, trees) ==> old(self).consistent(
                        commits,
                        trees,
                    ) && commits[old(self).wants_visit()->0] == commit
                &&& forall|commits: Map<ObjectId, Commit>, trees: TreeStore|
                    old(self).consistent(commits, trees) && commits.dom().contains(
                        old(self).wants_visit()->0,
                    ) && commits[old(self).wants_visit()->0] == commit
                        ==> #[trigger] final(self).consistent(commits, trees)
                &&& final(self).frontier().replies() == old(self).frontier().replies().insert(
                    old(self).wants_visit()->0,
                    commit,
                )
            },
    {
        if self.traversed == u64::MAX {
            return Err(
                Error::LimitExceeded {
                    limit: "history commits",
                    actual: u64::MAX,
                    maximum: u64::MAX,
                },
            );
        }
        let ghost before = *self;
        let ghost oid = self.frontier.awaiting()->0;
        proof {
            self.frontier.replies_cover_the_order();
        }
        self.frontier.accept(&commit)?;
        if self.traversed >= self.skip {
            self.probe = Some(PathProbe::new(self.path, self.mode, &commit));
            self.probed = Some(commit);
        }
        self.traversed = self.traversed + 1;
        proof {
            assert forall|commits: Map<ObjectId, Commit>, trees: TreeStore| #[trigger]
                self.consistent(commits, trees) implies before.consistent(commits, trees)
                && commits[oid] == commit by {
                crate::replies::agrees_with_earlier_replies(
                    before.frontier.replies(),
                    oid,
                    commit,
                    commits,
                );
            }
            assert(self.judged() =~= before.judged());
            assert forall|commits: Map<ObjectId, Commit>, trees: TreeStore| #[trigger]
                self.consistent(commits, trees) implies item_values(self.items@) == path_items(
                commits,
                trees,
                self.mode,
                self.path@,
                self.judged(),
            ) by {
                assert(before.consistent(commits, trees));
            }
        }
        Ok(())
    }

    /// Hand back the parent commit that was asked for.
    pub fn accept_parent(&mut self, commit: &Commit)
        requires
            old(self).wf(),
            old(self).wants_parent() is Some,
        ensures
            final(self).wf(),
            final(self).path() == old(self).path(),
            final(self).start() == old(self).start(),
            final(self).mode() == old(self).mode(),
            final(self).graph() == old(self).graph(),
            final(self).skip() == old(self).skip(),
            final(self).limit() == old(self).limit(),
            final(self).order() == old(self).order(),
            final(self).taken() == old(self).taken(),
            final(self).filled() == old(self).filled(),
            final(self).frontier() == old(self).frontier(),
            final(self).compares() == old(self).compares(),
            final(self).comparison() is Some,
            (old(self).comparison()->0).takes_commit(*commit, final(self).comparison()->0),
            forall|commits: Map<ObjectId, Commit>, trees: TreeStore| #[trigger]
                final(self).consistent(commits, trees) ==> old(self).consistent(commits, trees)
                    && commits[old(self).wants_parent()->0] == commit,
            forall|commits: Map<ObjectId, Commit>, trees: TreeStore|
                old(self).consistent(commits, trees) && commits[old(self).wants_parent()->0]
                    == commit ==> #[trigger] final(self).consistent(commits, trees),
    {
        let ghost before = *self;
        let ghost oid = self.wants_parent()->0;
        if let Some(mut probe) = self.probe.take() {
            let ghost probe_before = probe;
            probe.accept_commit(commit);
            self.probe = Some(probe);
            proof {
                assert(self.judged() == before.judged());
                assert forall|commits: Map<ObjectId, Commit>, trees: TreeStore| #[trigger]
                    self.consistent(commits, trees) implies before.consistent(commits, trees)
                    && commits[oid] == commit by {
                    crate::replies::answers_earlier_questions(
                        probe_before.commit_log(),
                        oid,
                        *commit,
                        commits,
                    );
                }
            }
        }
        proof {
            assert forall|commits: Map<ObjectId, Commit>, trees: TreeStore| #[trigger]
                self.consistent(commits, trees) implies item_values(self.items@) == path_items(
                commits,
                trees,
                self.mode,
                self.path@,
                self.judged(),
            ) by {
                assert(before.consistent(commits, trees));
            }
        }
    }

    /// Hand back the entries of the tree that was asked for. Below anything but a
    /// tree the path is absent.
    pub fn accept_tree(&mut self, entries: Vec<TreeEntry>) -> (result: Result<(), Error>)
        requires
            old(self).wf(),
            old(self).wants_tree() is Some,
        ensures
            (old(self).comparison()->0).takes_tree(
                entries@,
                final(self).comparison()->0,
                result,
            ),
            result is Ok ==> {
                let wanted = old(self).wants_tree()->0;
                &&& final(self).wf()
                &&& final(self).path() == old(self).path()
                &&& final(self).start() == old(self).start()
                &&& final(self).mode() == old(self).mode()
                &&& final(self).graph() == old(self).graph()
                &&& final(self).skip() == old(self).skip()
                &&& final(self).limit() == old(self).limit()
                &&& final(self).order() == old(self).order()
                &&& final(self).taken() == old(self).taken()
                &&& final(self).filled() == old(self).filled()
                &&& final(self).frontier() == old(self).frontier()
                &&& final(self).compares() == old(self).compares()
                &&& final(self).comparison() is Some
                &&& forall|commits: Map<ObjectId, Commit>, trees: TreeStore| #[trigger]
                    final(self).consistent(commits, trees) ==> old(self).consistent(
                        commits,
                        trees,
                    ) && trees[(wanted.0, wanted.1)] == entries@
                &&& forall|commits: Map<ObjectId, Commit>, trees: TreeStore|
                    old(self).consistent(commits, trees) && trees[(wanted.0, wanted.1)] == entries@
                        ==> #[trigger] final(self).consistent(commits, trees)
            },
    {
        let ghost before = *self;
        let ghost wanted = self.wants_tree()->0;
        let ghost list = entries@;
        if let Some(mut probe) = self.probe.take() {
            let ghost probe_before = probe;
            probe.accept_tree(entries)?;
            self.probe = Some(probe);
            proof {
                assert(self.judged() == before.judged());
                assert forall|commits: Map<ObjectId, Commit>, trees: TreeStore| #[trigger]
                    self.consistent(commits, trees) implies before.consistent(commits, trees)
                    && trees[(wanted.0, wanted.1)] == list by {
                    crate::replies::answers_earlier_questions(
                        probe_before.tree_log(),
                        (wanted.0, wanted.1),
                        list,
                        trees,
                    );
                }
            }
        }
        proof {
            assert forall|commits: Map<ObjectId, Commit>, trees: TreeStore| #[trigger]
                self.consistent(commits, trees) implies item_values(self.items@) == path_items(
                commits,
                trees,
                self.mode,
                self.path@,
                self.judged(),
            ) by {
                assert(before.consistent(commits, trees));
            }
        }
        Ok(())
    }

    /// Make room for one more item.
    pub fn reserve(&mut self) -> (result: Result<(), Error>)
        requires
            old(self).wf(),
        ensures
            final(self).wf(),
            final(self).path() == old(self).path(),
            final(self).start() == old(self).start(),
            final(self).mode() == old(self).mode(),
            final(self).graph() == old(self).graph(),
            final(self).skip() == old(self).skip(),
            final(self).limit() == old(self).limit(),
            final(self).order() == old(self).order(),
            final(self).frontier() == old(self).frontier(),
            final(self).comparison() == old(self).comparison(),
            final(self).compares() == old(self).compares(),
            final(self).shows_change() == old(self).shows_change(),
            forall|commits: Map<ObjectId, Commit>, trees: TreeStore| #[trigger]
                final(self).consistent(commits, trees) == old(self).consistent(commits, trees),
            final(self).taken() == old(self).taken(),
            final(self).filled() == old(self).filled(),
            crate::memory::is_reservation(old(self).taken(), 1, result),
    {
        let ghost before = *self;
        let result = crate::memory::reserve(&mut self.items, 1);
        proof {
            assert(self.judged() == before.judged());
            assert forall|commits: Map<ObjectId, Commit>, trees: TreeStore| #[trigger]
                self.consistent(commits, trees) == before.consistent(commits, trees) by {}
            assert forall|commits: Map<ObjectId, Commit>, trees: TreeStore| #[trigger]
                self.consistent(commits, trees) implies item_values(self.items@) == path_items(
                commits,
                trees,
                self.mode,
                self.path@,
                self.judged(),
            ) by {
                assert(before.consistent(commits, trees));
            }
            assert forall|commits: Map<ObjectId, Commit>, trees: TreeStore| #[trigger]
                self.consistent(commits, trees) && self.filled && self.limit > 0 implies path_items(
                commits,
                trees,
                self.mode,
                self.path@,
                between(self.order(), self.skip as int, self.order().len() - 1),
            ).len() < self.limit by {
                assert(before.consistent(commits, trees));
            }
        }
        result
    }

    /// Show the change that was accounted for.
    pub fn show(&mut self)
        requires
            old(self).wf(),
            old(self).compared() is Some,
            old(self).shows_change(),
        ensures
            final(self).wf(),
            final(self).path() == old(self).path(),
            final(self).start() == old(self).start(),
            final(self).mode() == old(self).mode(),
            final(self).graph() == old(self).graph(),
            final(self).skip() == old(self).skip(),
            final(self).limit() == old(self).limit(),
            final(self).order() == old(self).order(),
            final(self).frontier() == old(self).frontier(),
            final(self).comparison() is None,
            final(self).taken().len() == old(self).taken().len() + 1,
            final(self).taken().drop_last() == old(self).taken(),
            final(self).filled() == (final(self).taken().len() == final(self).limit()),
            final(self).taken().last().commit == old(self).compared()->0,
            (old(self).comparison()->0).concludes(Some(final(self).taken().last().kind)),
            forall|commits: Map<ObjectId, Commit>, trees: TreeStore| #[trigger]
                final(self).consistent(commits, trees) == old(self).consistent(commits, trees),
    {
        let ghost before = *self;
        if let (Some(_), Some(commit)) = (self.probe.take(), self.probed.take()) {
            let ghost probe = before.probe->0;
            if let Some(kind) = self.verdict {
                self.items.push(PathHistoryEntry { commit, kind });
                self.filled = self.items.len() == self.limit;
                self.tree_log = Ghost(before.tree_log@ + probe.tree_log());
                self.commit_log = Ghost(before.commit_log@ + probe.commit_log());
                proof {
                    assert forall|commits: Map<ObjectId, Commit>, trees: TreeStore| #[trigger]
                        self.consistent(commits, trees) implies before.consistent(
                        commits,
                        trees,
                    ) by {
                        lemma_joined(before.tree_log@, probe.tree_log(), trees);
                        lemma_joined(before.commit_log@, probe.commit_log(), commits);
                    }
                    let oid = before.order().last();
                    assert(self.judged() =~= before.judged().push(oid));
                    assert(self.judged().drop_last() =~= before.judged());
                    before.frontier.replies_cover_the_order();
                    assert(self.items@.drop_last() =~= before.items@);
                    assert(item_values(self.items@) =~= item_values(before.items@).push(
                        (commit, kind),
                    ));
                    assert forall|commits: Map<ObjectId, Commit>, trees: TreeStore| #[trigger]
                        self.consistent(commits, trees) implies item_values(self.items@)
                        == path_items(
                        commits,
                        trees,
                        self.mode,
                        self.path@,
                        self.judged(),
                    ) by {
                        lemma_joined(before.tree_log@, probe.tree_log(), trees);
                        lemma_joined(before.commit_log@, probe.commit_log(), commits);
                        assert(before.consistent(commits, trees));
                        assert(before.frontier.replies().dom().contains(
                            before.order()[before.order().len() - 1],
                        ));
                    }
                    assert forall|commits: Map<ObjectId, Commit>, trees: TreeStore| #[trigger]
                        self.consistent(commits, trees) && self.filled && self.limit
                            > 0 implies path_items(
                        commits,
                        trees,
                        self.mode,
                        self.path@,
                        between(self.order(), self.skip as int, self.order().len() - 1),
                    ).len() < self.limit by {
                        assert(before.consistent(commits, trees));
                        assert(item_values(before.items@).len() == before.items@.len());
                    }
                }
            }
        }
    }

    /// Take the finished page.
    pub fn into_page(self) -> (page: Page<PathHistoryEntry, PathHistoryCursor>)
        requires
            self.wf(),
            self.finished(),
        ensures
            page.items@ == self.taken(),
            forall|commits: Map<ObjectId, Commit>, trees: TreeStore| #[trigger]
                self.consistent(commits, trees) ==> is_path_history_page(
                    commits,
                    trees,
                    self.mode(),
                    self.graph(),
                    self.start(),
                    self.path(),
                    self.skip(),
                    self.limit(),
                    self.order().len(),
                    page,
                ),
    {
        let more = self.frontier.is_waiting();
        let next = if more {
            Some(
                PathHistoryCursor {
                    start: self.start,
                    mode: self.mode,
                    path: copy_bytes(self.path.as_bytes()),
                    skip: self.traversed,
                },
            )
        } else {
            None
        };
        let ghost walk = self;
        let page = Page { items: self.items, next };
        proof {
            walk.frontier.replies_cover_the_order();
            assert forall|commits: Map<ObjectId, Commit>, trees: TreeStore| #[trigger]
                walk.consistent(commits, trees) implies is_path_history_page(
                commits,
                trees,
                walk.mode(),
                walk.graph(),
                walk.start(),
                walk.path(),
                walk.skip(),
                walk.limit(),
                walk.order().len(),
                page,
            ) by {
                let end = walk.order().len();
                let order = crate::history::history_order(
                    commits,
                    walk.mode,
                    walk.graph(),
                    walk.start,
                    end,
                );
                let probe = crate::history::history_order(
                    commits,
                    walk.mode,
                    walk.graph(),
                    walk.start,
                    end + 1,
                );
                crate::history::shorter_history_is_a_prefix(
                    commits,
                    walk.mode,
                    walk.graph(),
                    walk.start,
                    end,
                    end + 1,
                );
                if more {
                    assert(walk.frontier.due(walk.frontier.awaiting()->0));
                    assert(probe.len() > end);
                    assert(probe.subrange(0, 1 + end as int) == walk.order().push(
                        walk.frontier.awaiting()->0,
                    ));
                    assert(order =~= walk.order());
                } else {
                    assert(walk.frontier.exhausted());
                    assert(order == walk.order());
                    assert(probe == walk.order());
                }
                assert(item_values(page.items@).len() == page.items@.len());
            }
        }
        page
    }

    /// Whether the finished comparison shows a change.
    pub closed spec fn shows_change(self) -> bool {
        self.verdict is Some && (self.probe->0).concludes(self.verdict)
    }
}

proof fn lemma_joined<K, V>(left: Seq<(K, V)>, right: Seq<(K, V)>, store: Map<K, V>)
    ensures
        crate::replies::answers(left + right, store) == (crate::replies::answers(left, store)
            && crate::replies::answers(right, store)),
{
    let both = left + right;
    if crate::replies::answers(both, store) {
        assert forall|i: int| 0 <= i < left.len() implies store[(#[trigger] left[i]).0]
            == left[i].1 by {
            assert(both[i] == left[i]);
        }
        assert forall|i: int| 0 <= i < right.len() implies store[(#[trigger] right[i]).0]
            == right[i].1 by {
            assert(both[left.len() + i] == right[i]);
        }
    }
    if crate::replies::answers(left, store) && crate::replies::answers(right, store) {
        assert forall|i: int| 0 <= i < both.len() implies store[(#[trigger] both[i]).0]
            == both[i].1 by {
            if i < left.len() {
                assert(both[i] == left[i]);
            } else {
                assert(both[i] == right[i - left.len()]);
            }
        }
    }
}

} // verus!
