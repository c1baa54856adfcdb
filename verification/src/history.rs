use vstd::prelude::*;

use crate::commit_graph::{queue_all_parents, CommitGraphIndex, GraphNode};
use crate::error::{CursorError, Error};
use crate::id_map::IdMap;
use crate::model::{
    commit_response_bytes, BudgetDimension, Charge, Commit, HistoryTraversal, Page,
};
use crate::oid::ObjectId;

verus! {

/// Where a history continues.
#[derive(Debug, Clone, Copy, PartialEq, Eq, Structural)]
pub struct HistoryCursor {
    pub start: ObjectId,
    pub mode: HistoryTraversal,
    pub skip: u64,
}

/// The parents that a policy follows, in the order in which they are visited.
pub open spec fn followed(
    mode: HistoryTraversal,
    graph: Option<Map<ObjectId, GraphNode>>,
    commit: Commit,
) -> Seq<ObjectId> {
    match mode {
        HistoryTraversal::FirstParent => if commit.parents@.len() > 0 {
            seq![commit.parents@[0]]
        } else {
            Seq::empty()
        },
        HistoryTraversal::AllParents => crate::commit_graph::parent_visits(
            graph,
            commit.oid,
            commit.parents@,
        ),
    }
}

/// The first `count` commits that a depth-first walk visits from a stack of
/// pending commits, whose last is taken first.
pub open spec fn walk(
    store: Map<ObjectId, Commit>,
    mode: HistoryTraversal,
    graph: Option<Map<ObjectId, GraphNode>>,
    stack: Seq<ObjectId>,
    visited: Set<ObjectId>,
    count: nat,
) -> Seq<ObjectId>
    decreases count, stack.len(),
{
    if count == 0 || stack.len() == 0 {
        Seq::empty()
    } else if visited.contains(stack.last()) {
        walk(store, mode, graph, stack.drop_last(), visited, count)
    } else {
        let oid = stack.last();
        seq![oid] + walk(
            store,
            mode,
            graph,
            stack.drop_last() + followed(mode, graph, store[oid]).reverse(),
            visited.insert(oid),
            (count - 1) as nat,
        )
    }
}

/// The first `count` commits of the history of a start commit.
pub open spec fn history_order(
    store: Map<ObjectId, Commit>,
    mode: HistoryTraversal,
    graph: Option<Map<ObjectId, GraphNode>>,
    start: ObjectId,
    count: nat,
) -> Seq<ObjectId> {
    walk(store, mode, graph, seq![start], Set::empty(), count)
}

/// The part of a history that a page shows.
pub open spec fn history_page(
    store: Map<ObjectId, Commit>,
    mode: HistoryTraversal,
    graph: Option<Map<ObjectId, GraphNode>>,
    start: ObjectId,
    skip: nat,
    limit: nat,
) -> Seq<ObjectId> {
    let shown = history_order(store, mode, graph, start, skip + limit);
    if shown.len() <= skip {
        Seq::empty()
    } else {
        shown.subrange(skip as int, shown.len() as int)
    }
}

proof fn lemma_walk_prefix(
    store: Map<ObjectId, Commit>,
    mode: HistoryTraversal,
    graph: Option<Map<ObjectId, GraphNode>>,
    stack: Seq<ObjectId>,
    visited: Set<ObjectId>,
    count: nat,
    more: nat,
)
    requires
        count <= more,
    ensures
        walk(store, mode, graph, stack, visited, count).len() <= count,
        walk(store, mode, graph, stack, visited, count).len() <= walk(
            store,
            mode,
            graph,
            stack,
            visited,
            more,
        ).len(),
        walk(store, mode, graph, stack, visited, count) == walk(
            store,
            mode,
            graph,
            stack,
            visited,
            more,
        ).subrange(0, walk(store, mode, graph, stack, visited, count).len() as int),
        walk(store, mode, graph, stack, visited, count).len() < count ==> walk(
            store,
            mode,
            graph,
            stack,
            visited,
            count,
        ) == walk(store, mode, graph, stack, visited, more),
    decreases count, stack.len(),
{
    if count == 0 || stack.len() == 0 {
    } else if visited.contains(stack.last()) {
        lemma_walk_prefix(store, mode, graph, stack.drop_last(), visited, count, more);
    } else {
        let oid = stack.last();
        let next = stack.drop_last() + followed(mode, graph, store[oid]).reverse();
        lemma_walk_prefix(
            store,
            mode,
            graph,
            next,
            visited.insert(oid),
            (count - 1) as nat,
            (more - 1) as nat,
        );
        let short = walk(store, mode, graph, next, visited.insert(oid), (count - 1) as nat);
        let long = walk(store, mode, graph, next, visited.insert(oid), (more - 1) as nat);
        assert((seq![oid] + short) =~= (seq![oid] + long).subrange(0, 1 + short.len() as int));
    }
}

/// A shorter part of a history is the beginning of a longer one, and a part that
/// is shorter than was asked for is the whole history.
pub proof fn shorter_history_is_a_prefix(
    store: Map<ObjectId, Commit>,
    mode: HistoryTraversal,
    graph: Option<Map<ObjectId, GraphNode>>,
    start: ObjectId,
    count: nat,
    more: nat,
)
    requires
        count <= more,
    ensures
        ({
            let short = history_order(store, mode, graph, start, count);
            let long = history_order(store, mode, graph, start, more);
            &&& short.len() <= count
            &&& short.len() <= long.len()
            &&& short == long.subrange(0, short.len() as int)
            &&& short.len() < count ==> short == long
        }),
{
    lemma_walk_prefix(store, mode, graph, seq![start], Set::empty(), count, more);
}

/// Two pages that follow each other show what one page of both sizes shows: a
/// continuation neither repeats nor loses a commit.
pub proof fn history_pages_continue(
    store: Map<ObjectId, Commit>,
    mode: HistoryTraversal,
    graph: Option<Map<ObjectId, GraphNode>>,
    start: ObjectId,
    skip: nat,
    first: nat,
    second: nat,
)
    ensures
        history_page(store, mode, graph, start, skip, first) + history_page(
            store,
            mode,
            graph,
            start,
            skip + first,
            second,
        ) == history_page(store, mode, graph, start, skip, first + second),
{
    let stack = seq![start];
    let none = Set::<ObjectId>::empty();
    lemma_walk_prefix(store, mode, graph, stack, none, skip + first, skip + first + second);
    let short = history_order(store, mode, graph, start, skip + first);
    let long = history_order(store, mode, graph, start, skip + first + second);
    assert(history_page(store, mode, graph, start, skip, first) + history_page(
        store,
        mode,
        graph,
        start,
        skip + first,
        second,
    ) =~= history_page(store, mode, graph, start, skip, first + second));
}

proof fn lemma_walk_fresh(
    store: Map<ObjectId, Commit>,
    mode: HistoryTraversal,
    graph: Option<Map<ObjectId, GraphNode>>,
    stack: Seq<ObjectId>,
    visited: Set<ObjectId>,
    count: nat,
)
    ensures
        walk(store, mode, graph, stack, visited, count).no_duplicates(),
        forall|i: int|
            0 <= i < walk(store, mode, graph, stack, visited, count).len() ==> !visited.contains(
                #[trigger] walk(store, mode, graph, stack, visited, count)[i],
            ),
    decreases count, stack.len(),
{
    if count == 0 || stack.len() == 0 {
    } else if visited.contains(stack.last()) {
        lemma_walk_fresh(store, mode, graph, stack.drop_last(), visited, count);
    } else {
        let oid = stack.last();
        let next = stack.drop_last() + followed(mode, graph, store[oid]).reverse();
        let rest = walk(store, mode, graph, next, visited.insert(oid), (count - 1) as nat);
        lemma_walk_fresh(store, mode, graph, next, visited.insert(oid), (count - 1) as nat);
        let all = seq![oid] + rest;
        assert forall|i: int, j: int|
            0 <= i < all.len() && 0 <= j < all.len() && i != j implies all[i] != all[j] by {
            if i == 0 {
                assert(all[j] == rest[j - 1]);
            } else if j == 0 {
                assert(all[i] == rest[i - 1]);
            } else {
                assert(all[i] == rest[i - 1]);
                assert(all[j] == rest[j - 1]);
            }
        }
        assert forall|i: int| 0 <= i < all.len() implies !visited.contains(#[trigger] all[i]) by {
            if i > 0 {
                assert(all[i] == rest[i - 1]);
            }
        }
    }
}

/// The parents that a policy follows, whatever order they are visited in.
pub open spec fn follows(mode: HistoryTraversal, commit: Commit, parent: ObjectId) -> bool {
    match mode {
        HistoryTraversal::FirstParent => commit.parents@.len() > 0 && commit.parents@[0] == parent,
        HistoryTraversal::AllParents => commit.parents@.contains(parent),
    }
}

proof fn lemma_followed(
    mode: HistoryTraversal,
    graph: Option<Map<ObjectId, GraphNode>>,
    commit: Commit,
    parent: ObjectId,
)
    ensures
        followed(mode, graph, commit).contains(parent) <==> follows(mode, commit, parent),
        followed(mode, graph, commit).reverse().contains(parent) <==> follows(mode, commit, parent),
{
    broadcast use vstd::seq_lib::group_to_multiset_ensures;

    let visits = followed(mode, graph, commit);
    match mode {
        HistoryTraversal::FirstParent => {
            if visits.len() > 0 {
                assert(visits[0] == commit.parents@[0]);
            }
        },
        HistoryTraversal::AllParents => {
            match graph {
                Some(nodes) => {
                    crate::commit_graph::graph_keeps_every_parent(nodes, commit.parents@);
                    let ordered = crate::commit_graph::ordered_parents(nodes, commit.parents@);
                    assert(ordered.contains(parent) <==> ordered.to_multiset().count(parent) > 0);
                    assert(commit.parents@.contains(parent)
                        <==> commit.parents@.to_multiset().count(parent) > 0);
                },
                None => {},
            }
        },
    }
    let back = visits.reverse();
    if visits.contains(parent) {
        let i = choose|i: int| 0 <= i < visits.len() && visits[i] == parent;
        assert(back[visits.len() - 1 - i] == parent);
    }
    if back.contains(parent) {
        let i = choose|i: int| 0 <= i < back.len() && back[i] == parent;
        assert(visits[visits.len() - 1 - i] == parent);
    }
}

/// Everything pending has been visited or will be.
proof fn lemma_walk_complete(
    store: Map<ObjectId, Commit>,
    mode: HistoryTraversal,
    graph: Option<Map<ObjectId, GraphNode>>,
    stack: Seq<ObjectId>,
    visited: Set<ObjectId>,
    count: nat,
)
    requires
        walk(store, mode, graph, stack, visited, count).len() < count,
    ensures
        forall|oid: ObjectId|
            #[trigger] stack.contains(oid) ==> visited.contains(oid) || walk(
                store,
                mode,
                graph,
                stack,
                visited,
                count,
            ).contains(oid),
        forall|oid: ObjectId, parent: ObjectId|
            #![trigger follows(mode, store[oid], parent)]
            walk(store, mode, graph, stack, visited, count).contains(oid) && follows(
                mode,
                store[oid],
                parent,
            ) ==> visited.contains(parent) || walk(
                store,
                mode,
                graph,
                stack,
                visited,
                count,
            ).contains(parent),
    decreases count, stack.len(),
{
    let all = walk(store, mode, graph, stack, visited, count);
    if stack.len() == 0 {
    } else if visited.contains(stack.last()) {
        let rest = stack.drop_last();
        lemma_walk_complete(store, mode, graph, rest, visited, count);
        assert forall|oid: ObjectId| #[trigger] stack.contains(oid) implies visited.contains(oid)
            || all.contains(oid) by {
            let i = choose|i: int| 0 <= i < stack.len() && stack[i] == oid;
            if i < rest.len() {
                assert(rest[i] == oid);
                assert(rest.contains(oid));
            }
        }
    } else {
        let top = stack.last();
        let queued = followed(mode, graph, store[top]).reverse();
        let next = stack.drop_last() + queued;
        let seen = visited.insert(top);
        let rest = walk(store, mode, graph, next, seen, (count - 1) as nat);
        lemma_walk_complete(store, mode, graph, next, seen, (count - 1) as nat);
        assert(all[0] == top);
        assert forall|oid: ObjectId| rest.contains(oid) implies #[trigger] all.contains(oid) by {
            let i = choose|i: int| 0 <= i < rest.len() && rest[i] == oid;
            assert(all[i + 1] == oid);
        }
        assert forall|oid: ObjectId| #[trigger] stack.contains(oid) implies visited.contains(oid)
            || all.contains(oid) by {
            let i = choose|i: int| 0 <= i < stack.len() && stack[i] == oid;
            if i < stack.len() - 1 {
                assert(next[i] == oid);
                assert(next.contains(oid));
                assert(seen.contains(oid) || rest.contains(oid));
            }
            if oid == top {
                assert(all.contains(oid));
            }
        }
        assert forall|oid: ObjectId, parent: ObjectId|
            #![trigger follows(mode, store[oid], parent)]
            all.contains(oid) && follows(mode, store[oid], parent) implies visited.contains(parent)
            || all.contains(parent) by {
            if oid == top {
                lemma_followed(mode, graph, store[top], parent);
                let i = choose|i: int| 0 <= i < queued.len() && queued[i] == parent;
                assert(next[stack.len() - 1 + i] == parent);
                assert(next.contains(parent));
            } else {
                let i = choose|i: int| 0 <= i < all.len() && all[i] == oid;
                assert(rest[i - 1] == oid);
                assert(rest.contains(oid));
            }
            if parent == top {
                assert(all.contains(parent));
            }
        }
    }
}

/// Every visited commit was pending or is a parent of a commit visited before.
proof fn lemma_walk_sound(
    store: Map<ObjectId, Commit>,
    mode: HistoryTraversal,
    graph: Option<Map<ObjectId, GraphNode>>,
    stack: Seq<ObjectId>,
    visited: Set<ObjectId>,
    count: nat,
)
    ensures
        forall|i: int|
            #![trigger walk(store, mode, graph, stack, visited, count)[i]]
            0 <= i < walk(store, mode, graph, stack, visited, count).len() ==> stack.contains(
                walk(store, mode, graph, stack, visited, count)[i],
            ) || exists|j: int|
                0 <= j < i && follows(
                    mode,
                    store[#[trigger] walk(store, mode, graph, stack, visited, count)[j]],
                    walk(store, mode, graph, stack, visited, count)[i],
                ),
    decreases count, stack.len(),
{
    let all = walk(store, mode, graph, stack, visited, count);
    if count == 0 || stack.len() == 0 {
    } else if visited.contains(stack.last()) {
        let rest = stack.drop_last();
        lemma_walk_sound(store, mode, graph, rest, visited, count);
        assert forall|i: int| #![trigger all[i]] 0 <= i < all.len() implies stack.contains(all[i])
            || exists|j: int| 0 <= j < i && follows(mode, store[#[trigger] all[j]], all[i]) by {
            if rest.contains(all[i]) {
                let k = choose|k: int| 0 <= k < rest.len() && rest[k] == all[i];
                assert(stack[k] == all[i]);
            } else {
                let same = walk(store, mode, graph, rest, visited, count);
                assert(same[i] == all[i]);
                let j = choose|j: int| 0 <= j < i && follows(mode, store[#[trigger] same[j]], same[i]);
                assert(follows(mode, store[all[j]], all[i]));
            }
        }
    } else {
        let top = stack.last();
        let queued = followed(mode, graph, store[top]).reverse();
        let next = stack.drop_last() + queued;
        let tail = walk(store, mode, graph, next, visited.insert(top), (count - 1) as nat);
        lemma_walk_sound(store, mode, graph, next, visited.insert(top), (count - 1) as nat);
        assert forall|i: int| #![trigger all[i]] 0 <= i < all.len() implies stack.contains(all[i])
            || exists|j: int| 0 <= j < i && follows(mode, store[#[trigger] all[j]], all[i]) by {
            if i == 0 {
                assert(stack[stack.len() - 1] == all[i]);
            } else {
                assert(all[i] == tail[i - 1]);
                if next.contains(tail[i - 1]) {
                    let k = choose|k: int| 0 <= k < next.len() && next[k] == tail[i - 1];
                    if k < stack.len() - 1 {
                        assert(stack[k] == all[i]);
                    } else {
                        assert(queued[k - (stack.len() - 1)] == all[i]);
                        assert(queued.contains(all[i]));
                        lemma_followed(mode, graph, store[top], all[i]);
                        assert(follows(mode, store[all[0]], all[i]));
                    }
                } else {
                    let j = choose|j: int|
                        0 <= j < i - 1 && follows(mode, store[#[trigger] tail[j]], tail[i - 1]);
                    assert(all[j + 1] == tail[j]);
                    assert(follows(mode, store[all[j + 1]], all[i]));
                }
            }
        }
    }
}

/// A history that has ended shows every commit that can be reached from its
/// start through followed parents, each exactly once, and nothing else: a commit
/// graph cannot hide one.
pub proof fn finished_history_is_the_reachable_set(
    store: Map<ObjectId, Commit>,
    mode: HistoryTraversal,
    graph: Option<Map<ObjectId, GraphNode>>,
    start: ObjectId,
    count: nat,
)
    requires
        history_order(store, mode, graph, start, count).len() < count,
    ensures
        ({
            let all = history_order(store, mode, graph, start, count);
            &&& all.no_duplicates()
            &&& all.contains(start)
            &&& forall|oid: ObjectId, parent: ObjectId|
                #![trigger follows(mode, store[oid], parent)]
                all.contains(oid) && follows(mode, store[oid], parent) ==> all.contains(parent)
            &&& forall|i: int|
                #![trigger all[i]]
                0 <= i < all.len() ==> all[i] == start || exists|j: int|
                    0 <= j < i && follows(mode, store[#[trigger] all[j]], all[i])
        }),
{
    let stack = seq![start];
    let all = history_order(store, mode, graph, start, count);
    lemma_walk_fresh(store, mode, graph, stack, Set::empty(), count);
    lemma_walk_complete(store, mode, graph, stack, Set::empty(), count);
    lemma_walk_sound(store, mode, graph, stack, Set::empty(), count);
    assert(stack[0] == start);
    assert(stack.contains(start));
    assert forall|i: int| #![trigger all[i]] 0 <= i < all.len() implies all[i] == start
        || exists|j: int| 0 <= j < i && follows(mode, store[#[trigger] all[j]], all[i]) by {
        if stack.contains(all[i]) {
            let k = choose|k: int| 0 <= k < stack.len() && stack[k] == all[i];
            assert(stack[k] == start);
        }
    }
}

proof fn lemma_history_member(
    store: Map<ObjectId, Commit>,
    mode: HistoryTraversal,
    graph: Option<Map<ObjectId, GraphNode>>,
    count: nat,
    other: Option<Map<ObjectId, GraphNode>>,
    other_count: nat,
    start: ObjectId,
    at: int,
)
    requires
        history_order(store, mode, graph, start, count).len() < count,
        history_order(store, mode, other, start, other_count).len() < other_count,
        0 <= at < history_order(store, mode, graph, start, count).len(),
    ensures
        history_order(store, mode, other, start, other_count).contains(
            history_order(store, mode, graph, start, count)[at],
        ),
    decreases at,
{
    finished_history_is_the_reachable_set(store, mode, graph, start, count);
    finished_history_is_the_reachable_set(store, mode, other, start, other_count);
    let all = history_order(store, mode, graph, start, count);
    if all[at] != start {
        let j = choose|j: int| 0 <= j < at && follows(mode, store[#[trigger] all[j]], all[at]);
        lemma_history_member(store, mode, graph, count, other, other_count, start, j);
        assert(follows(mode, store[all[j]], all[at]));
    }
}

/// A commit graph, or the lack of one, changes only the order of a finished history:
/// the same commits are shown.
pub proof fn a_graph_changes_only_the_order(
    store: Map<ObjectId, Commit>,
    mode: HistoryTraversal,
    graph: Option<Map<ObjectId, GraphNode>>,
    count: nat,
    other: Option<Map<ObjectId, GraphNode>>,
    other_count: nat,
    start: ObjectId,
)
    requires
        history_order(store, mode, graph, start, count).len() < count,
        history_order(store, mode, other, start, other_count).len() < other_count,
    ensures
        forall|oid: ObjectId|
            #![trigger history_order(store, mode, graph, start, count).contains(oid)]
            #![trigger history_order(store, mode, other, start, other_count).contains(oid)]
            history_order(store, mode, graph, start, count).contains(oid) <==> history_order(
                store,
                mode,
                other,
                start,
                other_count,
            ).contains(oid),
{
    let all = history_order(store, mode, graph, start, count);
    let same = history_order(store, mode, other, start, other_count);
    assert forall|oid: ObjectId| all.contains(oid) implies same.contains(oid) by {
        let at = choose|at: int| 0 <= at < all.len() && all[at] == oid;
        lemma_history_member(store, mode, graph, count, other, other_count, start, at);
    }
    assert forall|oid: ObjectId| same.contains(oid) implies all.contains(oid) by {
        let at = choose|at: int| 0 <= at < same.len() && same[at] == oid;
        lemma_history_member(store, mode, other, other_count, graph, count, start, at);
    }
}

/// A history through all parents that has ended shows the start, and with every commit
/// each of its parents; every other commit is a parent of one shown before it.
pub proof fn a_whole_history_shows_every_ancestor(
    store: Map<ObjectId, Commit>,
    graph: Option<Map<ObjectId, GraphNode>>,
    start: ObjectId,
    count: nat,
)
    requires
        history_order(store, HistoryTraversal::AllParents, graph, start, count).len() < count,
    ensures
        ({
            let all = history_order(store, HistoryTraversal::AllParents, graph, start, count);
            &&& all.len() > 0 && all[0] == start
            &&& all.no_duplicates()
            &&& forall|i: int, k: int|
                0 <= i < all.len() && 0 <= k < store[all[i]].parents@.len() ==> all.contains(
                    #[trigger] store[all[i]].parents@[k],
                )
            &&& forall|i: int|
                0 < i < all.len() ==> exists|j: int|
                    0 <= j < i && store[#[trigger] all[j]].parents@.contains(#[trigger] all[i])
        }),
{
    let mode = HistoryTraversal::AllParents;
    let all = history_order(store, mode, graph, start, count);
    finished_history_is_the_reachable_set(store, mode, graph, start, count);
    lemma_next_is_due(store, mode, graph, seq![start], Set::empty(), count, 0);
    assert forall|i: int, k: int|
        0 <= i < all.len() && 0 <= k < store[all[i]].parents@.len() implies all.contains(
        #[trigger] store[all[i]].parents@[k],
    ) by {
        assert(all.contains(all[i]));
        assert(store[all[i]].parents@.contains(store[all[i]].parents@[k]));
        assert(follows(mode, store[all[i]], store[all[i]].parents@[k]));
    }
    assert forall|i: int| 0 < i < all.len() implies exists|j: int|
        0 <= j < i && store[#[trigger] all[j]].parents@.contains(#[trigger] all[i]) by {
        assert(all[0] != all[i]);
        let j = choose|j: int| 0 <= j < i && follows(mode, store[#[trigger] all[j]], all[i]);
        assert(store[all[j]].parents@.contains(all[i]));
    }
}

/// A first-parent history is the chain of first parents: each commit is the first parent
/// of the one before it, and the chain ends only at a commit without parents or where it
/// would run in a circle.
pub proof fn a_first_parent_history_is_a_chain(
    store: Map<ObjectId, Commit>,
    graph: Option<Map<ObjectId, GraphNode>>,
    start: ObjectId,
    count: nat,
    all: Seq<ObjectId>,
)
    requires
        all == history_order(store, HistoryTraversal::FirstParent, graph, start, count),
    ensures
        count > 0 ==> all.len() > 0 && all[0] == start,
        all.len() <= count,
        forall|i: int|
            0 <= i < all.len() - 1 ==> store[#[trigger] all[i]].parents@.len() > 0,
        forall|i: int, j: int|
            0 <= i && j == i + 1 && j < all.len() ==> #[trigger] all[j] == store[
                #[trigger] all[i]
            ].parents@[0],
        0 < all.len() < count ==> store[all.last()].parents@.len() == 0 || all.contains(
            store[all.last()].parents@[0],
        ),
{
    let mode = HistoryTraversal::FirstParent;
    assert(all.len() <= count) by {
        lemma_walk_prefix(store, mode, graph, seq![start], Set::empty(), count, count);
    }
    if count > 0 {
        assert(seq![start].last() == start);
        assert(all.len() > 0 && all[0] == start);
    }
    assert forall|i: int| 0 <= i < all.len() - 1 implies store[#[trigger] all[i]].parents@.len()
        > 0 by {
        lemma_chain_step(store, graph, start, count, i + 1);
    }
    assert forall|i: int, j: int| 0 <= i && j == i + 1 && j < all.len() implies #[trigger] all[j]
        == store[#[trigger] all[i]].parents@[0] by {
        lemma_chain_step(store, graph, start, count, j);
    }
    if 0 < all.len() < count {
        lemma_chain_end(store, graph, start, count);
    }
}

proof fn lemma_chain_end(
    store: Map<ObjectId, Commit>,
    graph: Option<Map<ObjectId, GraphNode>>,
    start: ObjectId,
    count: nat,
)
    requires
        0 < history_order(store, HistoryTraversal::FirstParent, graph, start, count).len() < count,
    ensures
        ({
            let all = history_order(store, HistoryTraversal::FirstParent, graph, start, count);
            let parents = store[all.last()].parents@;
            parents.len() == 0 || all.contains(parents[0])
        }),
{
    let mode = HistoryTraversal::FirstParent;
    let all = history_order(store, mode, graph, start, count);
    finished_history_is_the_reachable_set(store, mode, graph, start, count);
    let parents = store[all.last()].parents@;
    if parents.len() > 0 {
        assert(all.contains(all.last()));
        assert(follows(mode, store[all.last()], parents[0]));
    }
}

proof fn lemma_chain_step(
    store: Map<ObjectId, Commit>,
    graph: Option<Map<ObjectId, GraphNode>>,
    start: ObjectId,
    count: nat,
    i: int,
)
    requires
        0 < i < history_order(store, HistoryTraversal::FirstParent, graph, start, count).len(),
    ensures
        ({
            let all = history_order(store, HistoryTraversal::FirstParent, graph, start, count);
            store[all[i - 1]].parents@.len() > 0 && all[i] == store[all[i - 1]].parents@[0]
        }),
    decreases i,
{
    let mode = HistoryTraversal::FirstParent;
    let all = history_order(store, mode, graph, start, count);
    let none = Set::<ObjectId>::empty();
    lemma_walk_fresh(store, mode, graph, seq![start], none, count);
    lemma_next_is_due(store, mode, graph, seq![start], none, count, i);
    lemma_next_is_due(store, mode, graph, seq![start], none, count, 0);
    assert(all[0] == start);
    if i > 1 {
        lemma_chain_step(store, graph, start, count, i - 1);
    }
    if from_stack(store, mode, graph, all, seq![start], none, i) {
        assert(all[i] == start);
        assert(all[0] != all[i]);
    } else {
        let (j, m) = choose|j: int, m: int|
            #[trigger] from_parents(store, mode, graph, all, none, i, j, m);
        if j < i - 1 {
            lemma_chain_step(store, graph, start, count, j + 1);
            assert(all[j + 1] == all[i]);
        }
    }
}

/// Whether a commit has been seen before a place of a walk.
pub open spec fn seen_before(
    all: Seq<ObjectId>,
    visited: Set<ObjectId>,
    i: int,
    oid: ObjectId,
) -> bool {
    visited.contains(oid) || exists|k: int| 0 <= k < i && #[trigger] all[k] == oid
}

/// The commit at a place is taken from what was pending at the start, behind which
/// nothing was left.
pub open spec fn from_stack(
    store: Map<ObjectId, Commit>,
    mode: HistoryTraversal,
    graph: Option<Map<ObjectId, GraphNode>>,
    all: Seq<ObjectId>,
    stack: Seq<ObjectId>,
    visited: Set<ObjectId>,
    i: int,
) -> bool {
    exists|s: int|
        {
            &&& 0 <= s < stack.len()
            &&& #[trigger] stack[s] == all[i]
            &&& forall|t: int|
                s < t < stack.len() ==> seen_before(all, visited, i, #[trigger] stack[t])
            &&& forall|k: int, n: int|
                0 <= k < i && 0 <= n < followed(mode, graph, store[all[k]]).len() ==> seen_before(
                    all,
                    visited,
                    i,
                    #[trigger] followed(mode, graph, store[all[k]])[n],
                )
        }
}

/// The commit at a place is the first parent, in the order of their visits, of the
/// commit at an earlier place that has not been seen; no later commit has such a parent.
pub open spec fn from_parents(
    store: Map<ObjectId, Commit>,
    mode: HistoryTraversal,
    graph: Option<Map<ObjectId, GraphNode>>,
    all: Seq<ObjectId>,
    visited: Set<ObjectId>,
    i: int,
    j: int,
    m: int,
) -> bool {
    &&& 0 <= j < i
    &&& 0 <= m < followed(mode, graph, store[all[j]]).len()
    &&& followed(mode, graph, store[all[j]])[m] == all[i]
    &&& forall|n: int|
        0 <= n < m ==> seen_before(all, visited, i, #[trigger] followed(mode, graph, store[all[j]])[n])
    &&& forall|k: int, n: int|
        j < k < i && 0 <= n < followed(mode, graph, store[all[k]]).len() ==> seen_before(
            all,
            visited,
            i,
            #[trigger] followed(mode, graph, store[all[k]])[n],
        )
}

proof fn lemma_seen_shifts(
    oid: ObjectId,
    rest: Seq<ObjectId>,
    visited: Set<ObjectId>,
    i: int,
    other: ObjectId,
)
    requires
        1 <= i <= rest.len() + 1,
    ensures
        seen_before(rest, visited.insert(oid), i - 1, other) <==> seen_before(
            seq![oid] + rest,
            visited,
            i,
            other,
        ),
{
    let all = seq![oid] + rest;
    assert(all[0] == oid);
    if seen_before(rest, visited.insert(oid), i - 1, other) {
        if visited.contains(other) {
        } else if other == oid {
            assert(all[0] == other);
        } else {
            let k = choose|k: int| 0 <= k < i - 1 && #[trigger] rest[k] == other;
            assert(all[k + 1] == other);
        }
    }
    if seen_before(all, visited, i, other) && !visited.contains(other) && other != oid {
        let k = choose|k: int| 0 <= k < i && #[trigger] all[k] == other;
        assert(rest[k - 1] == other);
    }
}

proof fn lemma_next_is_due(
    store: Map<ObjectId, Commit>,
    mode: HistoryTraversal,
    graph: Option<Map<ObjectId, GraphNode>>,
    stack: Seq<ObjectId>,
    visited: Set<ObjectId>,
    count: nat,
    i: int,
)
    requires
        0 <= i < walk(store, mode, graph, stack, visited, count).len(),
    ensures
        ({
            let all = walk(store, mode, graph, stack, visited, count);
            from_stack(store, mode, graph, all, stack, visited, i) || exists|j: int, m: int|
                #[trigger] from_parents(store, mode, graph, all, visited, i, j, m)
        }),
    decreases count, stack.len(),
{
    let all = walk(store, mode, graph, stack, visited, count);
    if visited.contains(stack.last()) {
        let less = stack.drop_last();
        lemma_next_is_due(store, mode, graph, less, visited, count, i);
        if from_stack(store, mode, graph, all, less, visited, i) {
            let s = choose|s: int|
                {
                    &&& 0 <= s < less.len()
                    &&& #[trigger] less[s] == all[i]
                    &&& forall|t: int|
                        s < t < less.len() ==> seen_before(all, visited, i, #[trigger] less[t])
                    &&& forall|k: int, n: int|
                        0 <= k < i && 0 <= n < followed(mode, graph, store[all[k]]).len() ==> seen_before(
                            all,
                            visited,
                            i,
                            #[trigger] followed(mode, graph, store[all[k]])[n],
                        )
                };
            assert(stack[s] == all[i]);
            assert forall|t: int| s < t < stack.len() implies seen_before(
                all,
                visited,
                i,
                #[trigger] stack[t],
            ) by {
                if t < less.len() {
                    assert(less[t] == stack[t]);
                }
            }
        }
    } else {
        let oid = stack.last();
        let less = stack.drop_last();
        let parents = followed(mode, graph, store[oid]);
        let next = less + parents.reverse();
        let after = visited.insert(oid);
        let rest = walk(store, mode, graph, next, after, (count - 1) as nat);
        assert(all == seq![oid] + rest);
        if i == 0 {
            assert(stack[stack.len() - 1] == all[0]);
            assert(from_stack(store, mode, graph, all, stack, visited, 0));
        } else {
            lemma_next_is_due(store, mode, graph, next, after, (count - 1) as nat, i - 1);
            assert forall|other: ObjectId|
                seen_before(rest, after, i - 1, other) implies #[trigger] seen_before(
                all,
                visited,
                i,
                other,
            ) by {
                lemma_seen_shifts(oid, rest, visited, i, other);
            }
            assert forall|k: int| 1 <= k < all.len() implies #[trigger] all[k] == rest[k - 1] by {}
            if from_stack(store, mode, graph, rest, next, after, i - 1) {
                let s = choose|s: int|
                    {
                        &&& 0 <= s < next.len()
                        &&& #[trigger] next[s] == rest[i - 1]
                        &&& forall|t: int|
                            s < t < next.len() ==> seen_before(
                                rest,
                                after,
                                i - 1,
                                #[trigger] next[t],
                            )
                        &&& forall|k: int, n: int|
                            0 <= k < i - 1 && 0 <= n < followed(mode, graph, store[rest[k]]).len() ==> seen_before(
                                rest,
                                after,
                                i - 1,
                                #[trigger] followed(mode, graph, store[rest[k]])[n],
                            )
                    };
                assert forall|k: int, n: int|
                    1 <= k < i && 0 <= n < followed(mode, graph, store[all[k]]).len() implies seen_before(
                    all,
                    visited,
                    i,
                    #[trigger] followed(mode, graph, store[all[k]])[n],
                ) by {
                    assert(all[k] == rest[k - 1]);
                    assert(seen_before(rest, after, i - 1, followed(mode, graph, store[rest[k - 1]])[n]));
                }
                if s < less.len() {
                    assert(stack[s] == all[i]);
                    assert forall|t: int| s < t < stack.len() implies seen_before(
                        all,
                        visited,
                        i,
                        #[trigger] stack[t],
                    ) by {
                        if t < less.len() {
                            assert(next[t] == stack[t]);
                            assert(seen_before(rest, after, i - 1, next[t]));
                        } else {
                            assert(all[0] == stack[t]);
                        }
                    }
                    assert forall|k: int, n: int|
                        0 <= k < i && 0 <= n < followed(mode, graph, store[all[k]]).len() implies seen_before(
                        all,
                        visited,
                        i,
                        #[trigger] followed(mode, graph, store[all[k]])[n],
                    ) by {
                        if k == 0 {
                            let t = less.len() + parents.len() - 1 - n;
                            assert(next[t] == parents[n]);
                            assert(seen_before(rest, after, i - 1, next[t]));
                        }
                    }
                    assert(from_stack(store, mode, graph, all, stack, visited, i));
                } else {
                    let m = parents.len() - 1 - (s - less.len());
                    assert(parents[m] == next[s]);
                    assert forall|n: int| 0 <= n < m implies seen_before(
                        all,
                        visited,
                        i,
                        #[trigger] followed(mode, graph, store[all[0]])[n],
                    ) by {
                        let t = less.len() + parents.len() - 1 - n;
                        assert(next[t] == parents[n]);
                        assert(seen_before(rest, after, i - 1, next[t]));
                    }
                    assert(from_parents(store, mode, graph, all, visited, i, 0, m));
                }
            } else {
                let (j, m) = choose|j: int, m: int|
                    #[trigger] from_parents(store, mode, graph, rest, after, i - 1, j, m);
                assert(all[j + 1] == rest[j]);
                assert forall|n: int| 0 <= n < m implies seen_before(
                    all,
                    visited,
                    i,
                    #[trigger] followed(mode, graph, store[all[j + 1]])[n],
                ) by {
                    assert(seen_before(rest, after, i - 1, followed(mode, graph, store[rest[j]])[n]));
                }
                assert forall|k: int, n: int|
                    j + 1 < k < i && 0 <= n < followed(mode, graph, store[all[k]]).len() implies seen_before(
                    all,
                    visited,
                    i,
                    #[trigger] followed(mode, graph, store[all[k]])[n],
                ) by {
                    assert(all[k] == rest[k - 1]);
                    assert(seen_before(rest, after, i - 1, followed(mode, graph, store[rest[k - 1]])[n]));
                }
                assert(from_parents(store, mode, graph, all, visited, i, j + 1, m));
            }
        }
    }
}

/// A history goes down before it goes aside: behind each commit comes the first of its
/// parents, in the order of their visits, that was not shown before, and where it has
/// none left, that of the latest commit that has.
pub proof fn a_history_goes_down_before_it_goes_aside(
    store: Map<ObjectId, Commit>,
    mode: HistoryTraversal,
    graph: Option<Map<ObjectId, GraphNode>>,
    start: ObjectId,
    count: nat,
    i: int,
)
    requires
        0 < i < history_order(store, mode, graph, start, count).len(),
    ensures
        ({
            let all = history_order(store, mode, graph, start, count);
            &&& all[0] == start
            &&& forall|k: int| 0 <= k < i ==> #[trigger] all[k] != all[i]
            &&& exists|j: int, m: int|
                #[trigger] from_parents(store, mode, graph, all, Set::empty(), i, j, m)
        }),
{
    let none = Set::<ObjectId>::empty();
    let all = history_order(store, mode, graph, start, count);
    lemma_walk_fresh(store, mode, graph, seq![start], none, count);
    lemma_next_is_due(store, mode, graph, seq![start], none, count, 0);
    lemma_next_is_due(store, mode, graph, seq![start], none, count, i);
    assert(all[0] == start);
    if from_stack(store, mode, graph, all, seq![start], none, i) {
        assert(all[0] != all[i]);
    }
}

/// The parents that are followed are the commit's own: the first one alone, or all of
/// them, in the commit's order unless a graph that records exactly these parents orders
/// them.
pub proof fn what_parents_are_followed(
    graph: Option<Map<ObjectId, GraphNode>>,
    commit: Commit,
)
    ensures
        commit.parents@.len() == 0 ==> followed(HistoryTraversal::FirstParent, graph, commit).len()
            == 0,
        commit.parents@.len() > 0 ==> followed(HistoryTraversal::FirstParent, graph, commit)
            == seq![commit.parents@[0]],
        graph is None ==> followed(HistoryTraversal::AllParents, graph, commit)
            == commit.parents@,
        graph matches Some(nodes) ==> (!nodes.dom().contains(commit.oid)
            || nodes[commit.oid].parents@ != commit.parents@) ==> followed(
            HistoryTraversal::AllParents,
            graph,
            commit,
        ) == commit.parents@,
        followed(HistoryTraversal::AllParents, graph, commit).to_multiset()
            == commit.parents@.to_multiset(),
        graph matches Some(nodes) ==> (nodes.dom().contains(commit.oid)
            && nodes[commit.oid].parents@ == commit.parents@) ==> {
            let visits = followed(HistoryTraversal::AllParents, graph, commit);
            forall|i: int, j: int|
                0 <= i < j < visits.len() ==> {
                    let (a, b) = (#[trigger] visits[i], #[trigger] visits[j]);
                    &&& nodes.dom().contains(b) ==> nodes.dom().contains(a)
                        && nodes[a].generation >= nodes[b].generation
                    &&& nodes.dom().contains(a) == nodes.dom().contains(b) && (
                    nodes.dom().contains(a) ==> nodes[a].generation == nodes[b].generation)
                        ==> !b.before(a)
                }
        },
{
    assert(followed(HistoryTraversal::FirstParent, graph, commit) =~= (if commit.parents@.len()
        > 0 {
        seq![commit.parents@[0]]
    } else {
        Seq::empty()
    }));
    if let Some(nodes) = graph {
        crate::commit_graph::graph_keeps_every_parent(nodes, commit.parents@);
        crate::commit_graph::graph_order_is_sorted(nodes, commit.parents@);
        if nodes.dom().contains(commit.oid) && nodes[commit.oid].parents@ == commit.parents@ {
            let visits = followed(HistoryTraversal::AllParents, graph, commit);
            assert forall|i: int, j: int| 0 <= i < j < visits.len() implies ({
                let (a, b) = (#[trigger] visits[i], #[trigger] visits[j]);
                &&& nodes.dom().contains(b) ==> nodes.dom().contains(a) && nodes[a].generation
                    >= nodes[b].generation
                &&& nodes.dom().contains(a) == nodes.dom().contains(b) && (nodes.dom().contains(a)
                    ==> nodes[a].generation == nodes[b].generation) ==> !b.before(a)
            }) by {
                assert(!crate::commit_graph::visits_before(nodes, visits[j], visits[i]));
            }
        }
    }
}

/// Read the continuation of a history, which belongs to one start and one mode.
pub fn history_skip(
    start: ObjectId,
    mode: HistoryTraversal,
    after: Option<HistoryCursor>,
) -> (result: Result<u64, Error>)
    ensures
        result == (match after {
            None => Ok::<u64, Error>(0),
            Some(cursor) => if cursor.start == start && cursor.mode == mode {
                Ok(cursor.skip)
            } else {
                Err(Error::InvalidCursor { reason: CursorError::ContextMismatch })
            },
        }),
{
    match after {
        None => Ok(0),
        Some(cursor) => if cursor.start != start || cursor.mode != mode {
            Err(Error::InvalidCursor { reason: CursorError::ContextMismatch })
        } else {
            Ok(cursor.skip)
        },
    }
}

/// The error that reports a history longer than can be counted.
pub open spec fn too_many_commits() -> Error {
    Error::LimitExceeded { limit: "history commits", actual: u64::MAX, maximum: u64::MAX }
}

/// More commits than can be counted are reported as past the commits of a history.
pub proof fn how_too_long_a_history_is_reported()
    ensures
        too_many_commits() == (Error::LimitExceeded {
            limit: "history commits",
            actual: u64::MAX,
            maximum: u64::MAX,
        }),
{
}

/// Why a commit could not be taken: there was no room for its parents, for which only
/// a walk through all parents asks.
pub open spec fn no_room_for_parents(
    mode: HistoryTraversal,
    queued: Seq<ObjectId>,
    graph: Option<Map<ObjectId, GraphNode>>,
    commit: Commit,
    error: Error,
) -> bool {
    mode == HistoryTraversal::AllParents && crate::commit_graph::parents_refused(
        queued,
        graph,
        commit,
        error,
    )
}

/// A walk through first parents is never refused room, nor is one at a commit without
/// parents; any other is only for want of memory.
pub proof fn when_parents_are_refused(
    mode: HistoryTraversal,
    queued: Seq<ObjectId>,
    graph: Option<Map<ObjectId, GraphNode>>,
    commit: Commit,
    error: Error,
)
    requires
        no_room_for_parents(mode, queued, graph, commit, error),
        commit.parents@.len() <= usize::MAX,
    ensures
        mode == HistoryTraversal::AllParents,
        commit.parents@.len() > 0,
        error is Allocation,
{
}

/// Queued commits without the known ones on top.
pub open spec fn unvisited(queued: Seq<ObjectId>, known: Set<ObjectId>) -> Seq<ObjectId>
    decreases queued.len(),
{
    if queued.len() > 0 && known.contains(queued.last()) {
        unvisited(queued.drop_last(), known)
    } else {
        queued
    }
}

/// The commits that a walk has taken, and those that it will take.
pub struct CommitFrontier<'a> {
    mode: HistoryTraversal,
    graph: Option<&'a CommitGraphIndex>,
    pending: Vec<ObjectId>,
    visited: IdMap<ObjectId, ()>,
    awaiting: Option<ObjectId>,
    start: Ghost<ObjectId>,
    order: Ghost<Seq<ObjectId>>,
    replies: Ghost<Map<ObjectId, Commit>>,
}

impl<'a> CommitFrontier<'a> {
    /// The commits queued behind the one that is asked for, the next one last.
    pub closed spec fn queued(self) -> Seq<ObjectId> {
        self.pending@
    }

    /// Whether asking for the next commit leads from here to there: one that is asked
    /// for stays so, else the last queued commit that is not known yet is asked for.
    pub open spec fn advances_to(self, after: CommitFrontier<'a>) -> bool {
        match self.awaiting() {
            Some(oid) => after.awaiting() == Some(oid) && after.queued() == self.queued(),
            None => {
                let left = unvisited(self.queued(), self.replies().dom());
                if left.len() > 0 {
                    after.awaiting() == Some(left.last()) && after.queued() == left.drop_last()
                } else {
                    after.awaiting() is None && after.queued() == left
                }
            },
        }
    }

    pub closed spec fn start(self) -> ObjectId {
        self.start@
    }

    pub closed spec fn mode(self) -> HistoryTraversal {
        self.mode
    }

    pub closed spec fn graph(self) -> Option<Map<ObjectId, GraphNode>> {
        crate::commit_graph::graph_view(self.graph)
    }

    /// The commits handed back so far, in the order of the walk.
    pub closed spec fn order(self) -> Seq<ObjectId> {
        self.order@
    }

    /// The commits handed back so far, by the identity that was asked for.
    pub closed spec fn replies(self) -> Map<ObjectId, Commit> {
        self.replies@
    }

    /// The commit that was asked for and not handed back yet.
    pub closed spec fn awaiting(self) -> Option<ObjectId> {
        self.awaiting
    }

    spec fn stack(self) -> Seq<ObjectId> {
        match self.awaiting {
            Some(oid) => self.pending@.push(oid),
            None => self.pending@,
        }
    }

    spec fn seen(self) -> Set<ObjectId> {
        self.visited.contents().dom()
    }

    /// Whatever the store holds beyond what was read, the walk goes on exactly as
    /// the history of the start commit does.
    pub closed spec fn wf(self) -> bool {
        &&& self.visited.wf()
        &&& crate::commit_graph::graph_wf(self.graph)
        &&& match self.awaiting {
            Some(oid) => !self.seen().contains(oid),
            None => true,
        }
        &&& forall|i: int|
            0 <= i < self.order@.len() ==> self.replies@.dom().contains(#[trigger] self.order@[i])
        &&& self.replies@.dom() =~= self.seen()
        &&& forall|store: Map<ObjectId, Commit>, count: nat|
            crate::replies::agrees(self.replies@, store) && count >= self.order@.len()
                ==> #[trigger] history_order(
                store,
                self.mode,
                self.graph(),
                self.start@,
                count,
            ) == self.order@ + walk(
                store,
                self.mode,
                self.graph(),
                self.stack(),
                self.seen(),
                (count - self.order@.len()) as nat,
            )
    }

    /// The walk has visited everything it can reach.
    pub open spec fn exhausted(self) -> bool {
        forall|store: Map<ObjectId, Commit>, count: nat|
            crate::replies::agrees(self.replies(), store) && count >= self.order().len()
                ==> #[trigger] history_order(store, self.mode(), self.graph(), self.start(), count)
                == self.order()
    }

    /// The commit that the walk visits after those handed back.
    pub open spec fn due(self, oid: ObjectId) -> bool {
        forall|store: Map<ObjectId, Commit>, count: nat|
            crate::replies::agrees(self.replies(), store) && count > self.order().len() ==> {
                let all = #[trigger] history_order(
                    store,
                    self.mode(),
                    self.graph(),
                    self.start(),
                    count,
                );
                all.len() > self.order().len() && all.subrange(0, 1 + self.order().len() as int)
                    == self.order().push(oid)
            }
    }

    /// What was handed back is known, and what is asked for is not.
    pub proof fn replies_cover_the_order(self)
        requires
            self.wf(),
        ensures
            forall|i: int|
                0 <= i < self.order().len() ==> self.replies().dom().contains(
                    #[trigger] self.order()[i],
                ),
            self.awaiting() is Some ==> !self.replies().dom().contains(self.awaiting()->0),
            self.awaiting() is Some ==> self.due(self.awaiting()->0),
    {
        if let Some(oid) = self.awaiting {
            self.lemma_due(oid);
        }
    }

    /// Whether a commit was asked for and not handed back yet.
    pub fn is_waiting(&self) -> (result: bool)
        ensures
            result == (self.awaiting() is Some),
    {
        self.awaiting.is_some()
    }

    /// Begin at a start commit.
    pub fn new(
        start: ObjectId,
        mode: HistoryTraversal,
        graph: Option<&'a CommitGraphIndex>,
    ) -> (result: CommitFrontier<'a>)
        requires
            crate::commit_graph::graph_wf(graph),
        ensures
            result.wf(),
            result.start() == start,
            result.mode() == mode,
            result.graph() == crate::commit_graph::graph_view(graph),
            result.order() == Seq::<ObjectId>::empty(),
            result.replies() == Map::<ObjectId, Commit>::empty(),
            result.awaiting() is None,
            result.queued() == seq![start],
    {
        let mut pending: Vec<ObjectId> = Vec::new();
        pending.push(start);
        let result = CommitFrontier {
            mode,
            graph,
            pending,
            visited: IdMap::new(),
            awaiting: None,
            start: Ghost(start),
            order: Ghost(Seq::empty()),
            replies: Ghost(Map::empty()),
        };
        proof {
            assert(result.pending@ =~= seq![start]);
            assert(result.seen() =~= Set::empty());
            assert forall|store: Map<ObjectId, Commit>, count: nat|
                #[trigger] history_order(store, mode, result.graph(), start, count)
                == result.order@ + walk(
                store,
                mode,
                result.graph(),
                result.stack(),
                result.seen(),
                (count - result.order@.len()) as nat,
            ) by {
                assert(result.order@ + walk(
                    store,
                    mode,
                    result.graph(),
                    result.stack(),
                    result.seen(),
                    count,
                ) =~= walk(store, mode, result.graph(), result.stack(), result.seen(), count));
            }
        }
        result
    }

    /// The next commit to read, or nothing once all have been visited. Asking
    /// again before the commit is handed back names the same commit.
    pub fn next(&mut self) -> (result: Option<ObjectId>)
        requires
            old(self).wf(),
        ensures
            final(self).wf(),
            final(self).start() == old(self).start(),
            final(self).mode() == old(self).mode(),
            final(self).graph() == old(self).graph(),
            final(self).order() == old(self).order(),
            final(self).replies() == old(self).replies(),
            final(self).awaiting() == result,
            old(self).advances_to(*final(self)),
            match result {
                Some(oid) => final(self).due(oid) && !final(self).replies().dom().contains(oid),
                None => final(self).exhausted(),
            },
    {
        if let Some(oid) = self.awaiting {
            proof {
                self.lemma_due(oid);
            }
            return Some(oid);
        }
        loop
            invariant
                self.wf(),
                self.awaiting is None,
                self.start() == old(self).start(),
                self.mode() == old(self).mode(),
                self.graph() == old(self).graph(),
                self.order() == old(self).order(),
                self.replies() == old(self).replies(),
                old(self).awaiting is None,
                self.replies@.dom() =~= self.seen(),
                unvisited(self.pending@, self.replies@.dom()) == unvisited(
                    old(self).pending@,
                    self.replies@.dom(),
                ),
            decreases self.pending@.len(),
        {
            let ghost before = *self;
            proof {
                if before.pending@.len() > 0 {
                    assert(before.pending@.drop_last().push(before.pending@.last())
                        =~= before.pending@);
                }
            }
            match self.pending.pop() {
                None => {
                    proof {
                        assert forall|store: Map<ObjectId, Commit>, count: nat|
                            crate::replies::agrees(self.replies(), store) && count >= self.order().len() implies
                            #[trigger] history_order(
                            store,
                            self.mode(),
                            self.graph(),
                            self.start(),
                            count,
                        ) == self.order() by {
                            assert(before.order@ + Seq::<ObjectId>::empty() =~= before.order@);
                        }
                    }
                    return None;
                },
                Some(oid) => {
                    if self.visited.contains(&oid) {
                        proof {
                            assert forall|store: Map<ObjectId, Commit>, count: nat|
                                crate::replies::agrees(self.replies@, store) && count >= self.order@.len() implies
                                #[trigger] history_order(
                                store,
                                self.mode,
                                self.graph(),
                                self.start@,
                                count,
                            ) == self.order@ + walk(
                                store,
                                self.mode,
                                self.graph(),
                                self.stack(),
                                self.seen(),
                                (count - self.order@.len()) as nat,
                            ) by {
                                assert(before.stack().drop_last() =~= self.stack());
                                assert(before.stack().last() == oid);
                            }
                        }
                    } else {
                        self.awaiting = Some(oid);
                        proof {
                            assert(self.stack() =~= before.stack());
                            self.lemma_due(oid);
                        }
                        return Some(oid);
                    }
                },
            }
        }
    }

    proof fn lemma_due(self, oid: ObjectId)
        requires
            self.wf(),
            self.awaiting == Some(oid),
        ensures
            self.due(oid),
    {
        assert forall|store: Map<ObjectId, Commit>, count: nat|
            crate::replies::agrees(self.replies(), store) && count > self.order().len() implies {
            let all = #[trigger] history_order(
                store,
                self.mode(),
                self.graph(),
                self.start(),
                count,
            );
            all.len() > self.order().len() && all.subrange(0, 1 + self.order().len() as int)
                == self.order().push(oid)
        } by {
            let all = history_order(store, self.mode(), self.graph(), self.start(), count);
            let rest = walk(
                store,
                self.mode,
                self.graph(),
                self.stack(),
                self.seen(),
                (count - self.order@.len()) as nat,
            );
            assert(all == self.order@ + rest);
            assert(rest.len() > 0 && rest[0] == oid);
            assert(all.subrange(0, 1 + self.order().len() as int) =~= self.order().push(oid));
        }
    }

    /// Hand back the commit that was asked for. Only a lack of memory for its
    /// parents refuses it, and then it is still asked for.
    pub fn accept(&mut self, commit: &Commit) -> (result: Result<(), Error>)
        requires
            old(self).wf(),
            old(self).awaiting() is Some,
        ensures
            final(self).wf(),
            final(self).start() == old(self).start(),
            final(self).mode() == old(self).mode(),
            final(self).graph() == old(self).graph(),
            match result {
                Ok(()) => {
                    &&& final(self).awaiting() is None
                    &&& final(self).queued() == old(self).queued() + followed(
                        old(self).mode(),
                        old(self).graph(),
                        *commit,
                    ).reverse()
                    &&& final(self).order() == old(self).order().push(old(self).awaiting()->0)
                    &&& final(self).replies() == old(self).replies().insert(
                        old(self).awaiting()->0,
                        *commit,
                    )
                },
                Err(error) => {
                    &&& final(self).awaiting() == old(self).awaiting()
                    &&& final(self).queued() == old(self).queued()
                    &&& final(self).order() == old(self).order()
                    &&& final(self).replies() == old(self).replies()
                    &&& no_room_for_parents(
                        old(self).mode(),
                        old(self).queued(),
                        old(self).graph(),
                        *commit,
                        error,
                    )
                },
            },
    {
        let ghost before = *self;
        if let Some(oid) = self.awaiting {
            match self.mode {
                HistoryTraversal::FirstParent => {
                    if commit.parents.len() > 0 {
                        self.pending.push(commit.parents[0]);
                    }
                },
                HistoryTraversal::AllParents => {
                    match queue_all_parents(&mut self.pending, commit, self.graph) {
                        Ok(()) => {},
                        Err(error) => {
                            assert(self.stack() == before.stack());
                            return Err(error);
                        },
                    }
                },
            }
            self.visited.insert(oid, ());
            self.awaiting = None;
            self.order = Ghost(before.order@.push(oid));
            self.replies = Ghost(before.replies@.insert(oid, *commit));
            proof {
                let queued = followed(self.mode, self.graph(), *commit).reverse();
                assert(self.stack() =~= before.pending@ + queued);
                assert(self.queued() =~= before.queued() + queued);
                assert(self.seen() =~= before.seen().insert(oid));
                assert(before.stack().drop_last() =~= before.pending@);
                assert forall|i: int| 0 <= i < self.order@.len() implies self.replies@.dom().contains(
                    #[trigger] self.order@[i],
                ) by {
                    if i < before.order@.len() {
                        assert(self.order@[i] == before.order@[i]);
                    }
                }
                assert forall|store: Map<ObjectId, Commit>, count: nat|
                    crate::replies::agrees(self.replies@, store) && count >= self.order@.len() implies
                    #[trigger] history_order(
                    store,
                    self.mode,
                    self.graph(),
                    self.start@,
                    count,
                ) == self.order@ + walk(
                    store,
                    self.mode,
                    self.graph(),
                    self.stack(),
                    self.seen(),
                    (count - self.order@.len()) as nat,
                ) by {
                    crate::replies::agrees_with_earlier_replies(
                        before.replies@,
                        oid,
                        *commit,
                        store,
                    );
                    let rest = walk(
                        store,
                        self.mode,
                        self.graph(),
                        self.stack(),
                        self.seen(),
                        (count - self.order@.len()) as nat,
                    );
                    assert(before.order@ + (seq![oid] + rest) =~= self.order@ + rest);
                }
            }
        }
        Ok(())
    }
}

/// The items of a history page, and where the history continues: nowhere once
/// all reachable commits have been shown.
pub open spec fn is_history_page(
    store: Map<ObjectId, Commit>,
    mode: HistoryTraversal,
    graph: Option<Map<ObjectId, GraphNode>>,
    start: ObjectId,
    skip: u64,
    limit: usize,
    page: Page<Commit, HistoryCursor>,
) -> bool {
    let shown = history_page(store, mode, graph, start, skip as nat, limit as nat);
    let more = history_order(store, mode, graph, start, (skip + limit + 1) as nat).len() > skip
        + limit;
    &&& page.items@.len() == shown.len()
    &&& forall|i: int| 0 <= i < shown.len() ==> #[trigger] page.items@[i] == store[shown[i]]
    &&& page.next == (if more {
        Some(HistoryCursor { start, mode, skip: (skip + limit) as u64 })
    } else {
        None
    })
    &&& more ==> skip + limit <= u64::MAX
}

/// A page shows the commits of the history from its start on, in their order and as the
/// store holds them, as many as it has room for; it goes on exactly where the history
/// does, behind the last commit shown.
pub proof fn what_a_page_of_history_shows(
    store: Map<ObjectId, Commit>,
    mode: HistoryTraversal,
    graph: Option<Map<ObjectId, GraphNode>>,
    start: ObjectId,
    skip: u64,
    limit: usize,
    page: Page<Commit, HistoryCursor>,
    count: nat,
)
    requires
        is_history_page(store, mode, graph, start, skip, limit, page),
        count > skip + limit,
    ensures
        ({
            let all = history_order(store, mode, graph, start, count);
            let end = if all.len() < skip + limit {
                all.len() as int
            } else {
                skip + limit
            };
            &&& page.items@.len() == (if end > skip {
                end - skip
            } else {
                0
            })
            &&& forall|i: int|
                0 <= i < page.items@.len() ==> #[trigger] page.items@[i] == store[all[skip + i]]
            &&& page.next is Some <==> all.len() > skip + limit
            &&& page.next matches Some(cursor) ==> cursor.start == start && cursor.mode == mode
                && cursor.skip == skip + limit
        }),
{
    let whole = (skip + limit) as nat;
    shorter_history_is_a_prefix(store, mode, graph, start, whole, count);
    shorter_history_is_a_prefix(store, mode, graph, start, whole + 1, count);
    let all = history_order(store, mode, graph, start, count);
    let shown = history_order(store, mode, graph, start, whole);
    let part = history_page(store, mode, graph, start, skip as nat, limit as nat);
    assert forall|i: int| 0 <= i < page.items@.len() implies #[trigger] page.items@[i]
        == store[all[skip + i]] by {
        assert(part[i] == shown[skip + i]);
        assert(shown[skip + i] == all.subrange(0, shown.len() as int)[skip + i]);
    }
}

/// Where a page of a chain begins: where the page before it continues.
pub open spec fn chain_skip(pages: Seq<Page<Commit, HistoryCursor>>, at: int) -> u64 {
    if at <= 0 {
        0
    } else {
        match pages[at - 1].next {
            Some(cursor) => cursor.skip,
            None => 0,
        }
    }
}

/// Pages of one size from the beginning of a history, each continuing the one before
/// it, up to the page that continues nowhere.
pub open spec fn is_history_chain(
    store: Map<ObjectId, Commit>,
    mode: HistoryTraversal,
    graph: Option<Map<ObjectId, GraphNode>>,
    start: ObjectId,
    limit: usize,
    pages: Seq<Page<Commit, HistoryCursor>>,
) -> bool {
    &&& pages.len() > 0
    &&& forall|i: int|
        0 <= i < pages.len() ==> is_history_page(
            store,
            mode,
            graph,
            start,
            chain_skip(pages, i),
            limit,
            #[trigger] pages[i],
        )
    &&& forall|i: int|
        0 <= i < pages.len() ==> ((#[trigger] pages[i]).next is Some <==> i < pages.len() - 1)
}

/// The commits of some identities.
pub open spec fn commits_of(store: Map<ObjectId, Commit>, oids: Seq<ObjectId>) -> Seq<Commit> {
    oids.map_values(|oid: ObjectId| store[oid])
}

proof fn lemma_page_extends(
    store: Map<ObjectId, Commit>,
    mode: HistoryTraversal,
    graph: Option<Map<ObjectId, GraphNode>>,
    start: ObjectId,
    skip: u64,
    limit: usize,
    page: Page<Commit, HistoryCursor>,
)
    requires
        is_history_page(store, mode, graph, start, skip, limit, page),
        history_order(store, mode, graph, start, skip as nat).len() == skip,
    ensures
        commits_of(store, history_order(store, mode, graph, start, skip as nat)) + page.items@
            == commits_of(store, history_order(store, mode, graph, start, (skip + limit) as nat)),
        page.next matches Some(cursor) ==> {
            &&& cursor.skip == skip + limit
            &&& history_order(store, mode, graph, start, (skip + limit) as nat).len() == skip
                + limit
            &&& page.items@.len() == limit
        },
        page.next is None ==> history_order(store, mode, graph, start, (skip + limit + 1) as nat)
            == history_order(store, mode, graph, start, (skip + limit) as nat),
{
    let end = (skip + limit) as nat;
    let part = history_page(store, mode, graph, start, skip as nat, limit as nat);
    let begun = history_order(store, mode, graph, start, skip as nat);
    let whole = history_order(store, mode, graph, start, end);
    history_pages_continue(store, mode, graph, start, 0, skip as nat, limit as nat);
    assert(history_page(store, mode, graph, start, 0, skip as nat) =~= begun);
    assert(history_page(store, mode, graph, start, 0, end) =~= whole);
    assert(page.items@ =~= commits_of(store, part));
    assert(commits_of(store, begun) + commits_of(store, part) =~= commits_of(store, begun + part));
    shorter_history_is_a_prefix(store, mode, graph, start, end, end + 1);
    shorter_history_is_a_prefix(store, mode, graph, start, skip as nat, end);
    assert(page.next is None ==> history_order(store, mode, graph, start, end + 1) =~= whole);
}

proof fn lemma_history_chain(
    store: Map<ObjectId, Commit>,
    mode: HistoryTraversal,
    graph: Option<Map<ObjectId, GraphNode>>,
    start: ObjectId,
    limit: usize,
    pages: Seq<Page<Commit, HistoryCursor>>,
    at: int,
)
    requires
        is_history_chain(store, mode, graph, start, limit, pages),
        0 <= at < pages.len(),
    ensures
        history_order(store, mode, graph, start, chain_skip(pages, at) as nat).len() == chain_skip(
            pages,
            at,
        ),
        crate::model::shown_by(pages.take(at)) == commits_of(
            store,
            history_order(store, mode, graph, start, chain_skip(pages, at) as nat),
        ),
    decreases at,
{
    if at == 0 {
        crate::model::one_more_page_is_shown(pages, 1);
        assert(history_order(store, mode, graph, start, 0) =~= Seq::empty());
        assert(commits_of(store, Seq::<ObjectId>::empty()) =~= Seq::empty());
    } else {
        lemma_history_chain(store, mode, graph, start, limit, pages, at - 1);
        crate::model::one_more_page_is_shown(pages, at);
        let page = pages[at - 1];
        lemma_page_extends(store, mode, graph, start, chain_skip(pages, at - 1), limit, page);
    }
}

/// The pages of a history, followed until there is no next one, show every commit that
/// can be reached from the start through followed parents, each exactly once and the
/// start first; every page but the last is full.
pub proof fn chained_history_is_the_whole_history(
    store: Map<ObjectId, Commit>,
    mode: HistoryTraversal,
    graph: Option<Map<ObjectId, GraphNode>>,
    start: ObjectId,
    limit: usize,
    pages: Seq<Page<Commit, HistoryCursor>>,
) -> (count: nat)
    requires
        limit > 0,
        is_history_chain(store, mode, graph, start, limit, pages),
    ensures
        ({
            let all = history_order(store, mode, graph, start, count);
            &&& all.len() < count
            &&& crate::model::shown_by(pages) == commits_of(store, all)
            &&& all.len() > 0 && all[0] == start
            &&& all.no_duplicates()
            &&& forall|oid: ObjectId, parent: ObjectId|
                #![trigger follows(mode, store[oid], parent)]
                all.contains(oid) && follows(mode, store[oid], parent) ==> all.contains(parent)
            &&& forall|i: int|
                #![trigger all[i]]
                0 <= i < all.len() ==> all[i] == start || exists|j: int|
                    0 <= j < i && follows(mode, store[#[trigger] all[j]], all[i])
            &&& forall|i: int|
                0 <= i < pages.len() - 1 ==> (#[trigger] pages[i]).items@.len() == limit
        }),
{
    let at = pages.len() - 1;
    let skip = chain_skip(pages, at);
    let end = (skip + limit) as nat;
    lemma_history_chain(store, mode, graph, start, limit, pages, at);
    crate::model::one_more_page_is_shown(pages, pages.len() as int);
    lemma_page_extends(store, mode, graph, start, skip, limit, pages[at]);
    assert forall|i: int| 0 <= i < pages.len() - 1 implies (#[trigger] pages[i]).items@.len()
        == limit by {
        lemma_history_chain(store, mode, graph, start, limit, pages, i);
        lemma_page_extends(store, mode, graph, start, chain_skip(pages, i), limit, pages[i]);
    }
    let all = history_order(store, mode, graph, start, end + 1);
    shorter_history_is_a_prefix(store, mode, graph, start, end, end + 1);
    finished_history_is_the_reachable_set(store, mode, graph, start, end + 1);
    assert(seq![start].last() == start);
    assert(all[0] == start);
    end + 1
}

/// The size of the pages does not change what a history shows, nor its order.
pub proof fn history_does_not_depend_on_the_page_size(
    store: Map<ObjectId, Commit>,
    mode: HistoryTraversal,
    graph: Option<Map<ObjectId, GraphNode>>,
    start: ObjectId,
    limit: usize,
    pages: Seq<Page<Commit, HistoryCursor>>,
    other_limit: usize,
    other_pages: Seq<Page<Commit, HistoryCursor>>,
)
    requires
        limit > 0,
        other_limit > 0,
        is_history_chain(store, mode, graph, start, limit, pages),
        is_history_chain(store, mode, graph, start, other_limit, other_pages),
    ensures
        crate::model::shown_by(pages) == crate::model::shown_by(other_pages),
{
    let count = chained_history_is_the_whole_history(store, mode, graph, start, limit, pages);
    let other = chained_history_is_the_whole_history(
        store,
        mode,
        graph,
        start,
        other_limit,
        other_pages,
    );
    if count <= other {
        shorter_history_is_a_prefix(store, mode, graph, start, count, other);
    } else {
        shorter_history_is_a_prefix(store, mode, graph, start, other, count);
    }
}

/// One page of a history, built from the commits that it asks for.
pub struct HistoryWalk<'a> {
    frontier: CommitFrontier<'a>,
    start: ObjectId,
    mode: HistoryTraversal,
    skip: u64,
    limit: usize,
    traversed: u64,
    items: Vec<Commit>,
    held: Option<Commit>,
}

impl<'a> HistoryWalk<'a> {
    /// The walk through the commits that the page is a part of.
    pub closed spec fn frontier(self) -> CommitFrontier<'a> {
        self.frontier
    }

    /// The commits queued behind the one that is asked for, the next one last.
    pub open spec fn queued(self) -> Seq<ObjectId> {
        self.frontier().queued()
    }

    pub closed spec fn start(self) -> ObjectId {
        self.start
    }

    pub closed spec fn mode(self) -> HistoryTraversal {
        self.mode
    }

    pub open spec fn graph(self) -> Option<Map<ObjectId, GraphNode>> {
        self.frontier().graph()
    }

    pub closed spec fn skip(self) -> u64 {
        self.skip
    }

    pub closed spec fn limit(self) -> usize {
        self.limit
    }

    /// The commits handed back so far, in the order of the walk.
    pub open spec fn order(self) -> Seq<ObjectId> {
        self.frontier().order()
    }

    /// The commits handed back so far, by the identity that was asked for.
    pub open spec fn replies(self) -> Map<ObjectId, Commit> {
        self.frontier().replies()
    }

    /// The commit that was asked for and not handed back yet.
    pub open spec fn awaiting(self) -> Option<ObjectId> {
        if self.full() {
            None
        } else {
            self.frontier().awaiting()
        }
    }

    /// The last commit handed back is to be shown and has not been put into the page.
    pub closed spec fn holding(self) -> bool {
        self.held is Some
    }

    /// The commits put into the page so far.
    pub open spec fn kept(self) -> Seq<Commit> {
        if self.holding() {
            self.taken().drop_last()
        } else {
            self.taken()
        }
    }

    /// The commits of the page so far: those handed back past the skipped ones.
    pub open spec fn taken(self) -> Seq<Commit> {
        Seq::new(
            if self.order().len() > self.skip() {
                (self.order().len() - self.skip()) as nat
            } else {
                0
            },
            |i: int| self.replies()[self.order()[self.skip() + i]],
        )
    }

    /// Whether no further commit fits into the page.
    pub open spec fn full(self) -> bool {
        self.order().len() >= self.skip() + self.limit()
    }

    pub closed spec fn wf(self) -> bool {
        &&& self.frontier.wf()
        &&& self.frontier.start() == self.start
        &&& self.frontier.mode() == self.mode
        &&& self.traversed == self.order().len()
        &&& self.order().len() <= self.skip + self.limit
        &&& self.items@.len() + (if self.held is Some {
            1int
        } else {
            0
        }) == (if self.order().len() > self.skip {
            self.order().len() - self.skip
        } else {
            0
        })
        &&& forall|i: int|
            0 <= i < self.items@.len() ==> #[trigger] self.items@[i]
                == self.replies()[self.order()[self.skip + i]]
        &&& self.held matches Some(commit) ==> self.frontier.awaiting() is None && commit
            == self.replies()[self.order().last()]
    }

    /// The page can be taken: it is full, or the history has ended, and no commit waits
    /// for room.
    pub open spec fn finished(self) -> bool {
        !self.holding() && if self.frontier().awaiting() is Some {
            self.full()
        } else {
            self.frontier().exhausted()
        }
    }

    /// The commit that the history shows after those handed back.
    pub open spec fn due(self, oid: ObjectId) -> bool {
        forall|store: Map<ObjectId, Commit>, count: nat|
            crate::replies::agrees(self.replies(), store) && count > self.order().len() ==> {
                let all = #[trigger] history_order(
                    store,
                    self.mode(),
                    self.graph(),
                    self.start(),
                    count,
                );
                all.len() > self.order().len() && all.subrange(0, 1 + self.order().len() as int)
                    == self.order().push(oid)
            }
    }

    /// Nothing has been asked for yet but the start.
    pub open spec fn is_new(self) -> bool {
        &&& self.order() == Seq::<ObjectId>::empty()
        &&& self.replies() == Map::<ObjectId, Commit>::empty()
        &&& self.frontier().awaiting() is None
        &&& self.queued() == seq![self.start()]
        &&& !self.holding()
    }

    /// Begin a page of the history of a commit.
    pub fn new(
        start: ObjectId,
        mode: HistoryTraversal,
        graph: Option<&'a CommitGraphIndex>,
        skip: u64,
        limit: usize,
    ) -> (result: HistoryWalk<'a>)
        requires
            crate::commit_graph::graph_wf(graph),
        ensures
            result.wf(),
            result.start() == start,
            result.mode() == mode,
            result.graph() == crate::commit_graph::graph_view(graph),
            result.skip() == skip,
            result.limit() == limit,
            result.is_new(),
    {
        HistoryWalk {
            frontier: CommitFrontier::new(start, mode, graph),
            start,
            mode,
            skip,
            limit,
            traversed: 0,
            items: Vec::new(),
            held: None,
        }
    }

    /// The next commit to read, or nothing once the page is complete.
    pub fn next(&mut self) -> (result: Option<ObjectId>)
        requires
            old(self).wf(),
            !old(self).holding(),
        ensures
            final(self).wf(),
            !final(self).holding(),
            final(self).start() == old(self).start(),
            final(self).mode() == old(self).mode(),
            final(self).graph() == old(self).graph(),
            final(self).skip() == old(self).skip(),
            final(self).limit() == old(self).limit(),
            final(self).order() == old(self).order(),
            final(self).replies() == old(self).replies(),
            final(self).awaiting() == result,
            old(self).frontier().advances_to(final(self).frontier()),
            match result {
                Some(oid) => final(self).due(oid) && final(self).order().len() < final(self).skip()
                    + final(self).limit(),
                None => final(self).finished(),
            },
    {
        match self.frontier.next() {
            Some(oid) => if self.traversed >= self.skip && self.items.len() == self.limit {
                None
            } else {
                Some(oid)
            },
            None => None,
        }
    }

    /// Put the commit that was handed back last into the page; one that is skipped needs
    /// no room.
    pub fn keep(&mut self) -> (result: Result<(), Error>)
        requires
            old(self).wf(),
        ensures
            final(self).wf(),
            final(self).start() == old(self).start(),
            final(self).mode() == old(self).mode(),
            final(self).skip() == old(self).skip(),
            final(self).limit() == old(self).limit(),
            final(self).frontier() == old(self).frontier(),
            final(self).holding() == (old(self).holding() && result is Err),
            if old(self).holding() {
                crate::memory::is_reservation(old(self).kept(), 1, result)
            } else {
                result == Ok::<(), Error>(())
            },
    {
        proof {
            self.frontier.replies_cover_the_order();
        }
        let ghost before = *self;
        match self.held.take() {
            None => Ok(()),
            Some(commit) => {
                assert(before.items@ =~= before.kept());
                match crate::memory::reserve(&mut self.items, 1) {
                    Ok(()) => {
                        self.items.push(commit);
                        Ok(())
                    },
                    Err(error) => {
                        self.held = Some(commit);
                        Err(error)
                    },
                }
            },
        }
    }

    /// Hand back the commit that was asked for, and learn what it costs to show. One that
    /// is to be shown is held until it is kept.
    pub fn accept(&mut self, commit: Commit) -> (result: Result<Option<Charge>, Error>)
        requires
            old(self).wf(),
            old(self).awaiting() is Some,
        ensures
            final(self).wf(),
            final(self).start() == old(self).start(),
            final(self).mode() == old(self).mode(),
            final(self).graph() == old(self).graph(),
            final(self).skip() == old(self).skip(),
            final(self).limit() == old(self).limit(),
            match result {
                Ok(charge) => {
                    &&& old(self).order().len() < u64::MAX
                    &&& charge == (if old(self).order().len() >= old(self).skip() {
                        Some(
                            (Charge {
                                dimension: BudgetDimension::ResponseBytes,
                                amount: crate::memory::clamp_usize(
                                    commit@.response_bytes(),
                                ) as u64,
                            }),
                        )
                    } else {
                        None
                    })
                },
                Err(error) => if old(self).order().len() == u64::MAX {
                    error == too_many_commits()
                } else {
                    no_room_for_parents(
                        old(self).mode(),
                        old(self).queued(),
                        old(self).graph(),
                        commit,
                        error,
                    )
                },
            },
            result is Ok ==> {
                &&& final(self).awaiting() is None
                &&& final(self).frontier().awaiting() is None
                &&& final(self).queued() == old(self).queued() + followed(
                    old(self).mode(),
                    old(self).graph(),
                    commit,
                ).reverse()
                &&& final(self).order() == old(self).order().push(old(self).awaiting()->0)
                &&& final(self).replies() == old(self).replies().insert(
                    old(self).awaiting()->0,
                    commit,
                )
                &&& final(self).holding() == (old(self).order().len() >= old(self).skip())
            },
    {
        if self.traversed == u64::MAX {
            return Err(
                Error::LimitExceeded {
                    limit: "history commits",
                    actual: u64::MAX,
                    maximum: u64::MAX,
                },
            );
        }
        let ghost before = *self;
        proof {
            self.frontier.replies_cover_the_order();
        }
        self.frontier.accept(&commit)?;
        let mut charge: Option<Charge> = None;
        if self.traversed >= self.skip {
            charge =
            Some(
                Charge {
                    dimension: BudgetDimension::ResponseBytes,
                    amount: commit_response_bytes(&commit),
                },
            );
            self.held = Some(commit);
        }
        self.traversed = self.traversed + 1;
        proof {
            assert forall|i: int| 0 <= i < self.items@.len() implies #[trigger] self.items@[i]
                == self.replies()[self.order()[self.skip + i]] by {
                if i < before.items@.len() {
                    assert(self.items@[i] == before.items@[i]);
                    assert(self.order()[self.skip + i] == before.order()[self.skip + i]);
                    assert(before.replies().dom().contains(before.order()[self.skip + i]));
                }
            }
        }
        Ok(charge)
    }

    /// Take the finished page.
    pub fn into_page(self) -> (page: Page<Commit, HistoryCursor>)
        requires
            self.wf(),
            self.finished(),
        ensures
            forall|store: Map<ObjectId, Commit>|
                crate::replies::agrees(self.replies(), store) ==> #[trigger] is_history_page(
                    store,
                    self.mode(),
                    self.graph(),
                    self.start(),
                    self.skip(),
                    self.limit(),
                    page,
                ),
    {
        let more = self.frontier.is_waiting();
        let next = if more {
            Some(
                HistoryCursor {
                    start: self.start,
                    mode: self.mode,
                    skip: self.skip + self.items.len() as u64,
                },
            )
        } else {
            None
        };
        let ghost walk = self;
        let page = Page { items: self.items, next };
        proof {
            assert forall|store: Map<ObjectId, Commit>|
                crate::replies::agrees(walk.replies(), store) implies #[trigger] is_history_page(
                store,
                walk.mode(),
                walk.graph(),
                walk.start(),
                walk.skip(),
                walk.limit(),
                page,
            ) by {
                let whole = (walk.skip + walk.limit) as nat;
                let shown = history_order(store, walk.mode, walk.graph(), walk.start, whole);
                let probe = history_order(store, walk.mode, walk.graph(), walk.start, whole + 1);
                lemma_walk_prefix(
                    store,
                    walk.mode,
                    walk.graph(),
                    seq![walk.start],
                    Set::empty(),
                    whole,
                    whole + 1,
                );
                walk.frontier.replies_cover_the_order();
                if more {
                    let oid = walk.frontier.awaiting()->0;
                    assert(walk.frontier.due(oid));
                    assert(probe.len() > whole);
                    assert(probe.subrange(0, 1 + walk.order().len() as int) == walk.order().push(oid));
                    lemma_walk_prefix(
                        store,
                        walk.mode,
                        walk.graph(),
                        seq![walk.start],
                        Set::empty(),
                        whole + 1,
                        whole + 1,
                    );
                    assert(probe =~= walk.order().push(oid));
                    assert(shown =~= walk.order()) by {
                        if shown.len() < whole {
                            assert(shown == probe);
                        }
                    }
                } else {
                    assert(walk.frontier.exhausted());
                    assert(shown == walk.order());
                    assert(probe == walk.order());
                }
                let part = history_page(
                    store,
                    walk.mode,
                    walk.graph(),
                    walk.start,
                    walk.skip as nat,
                    walk.limit as nat,
                );
                assert forall|i: int| 0 <= i < part.len() implies #[trigger] page.items@[i]
                    == store[part[i]] by {
                    assert(part[i] == walk.order()[walk.skip + i]);
                    assert(walk.replies().dom().contains(walk.order()[walk.skip + i]));
                }
            }
        }
        page
    }
}

} // verus!
