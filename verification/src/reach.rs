use vstd::prelude::*;
use std::collections::VecDeque;

use crate::id_map::IdMap;
use crate::model::Commit;
use crate::oid::ObjectId;

verus! {

/// The first `count` commits that a breadth-first walk visits from a queue of
/// pending commits.
pub open spec fn breadth(
    commits: Map<ObjectId, Commit>,
    queue: Seq<ObjectId>,
    visited: Set<ObjectId>,
    count: nat,
) -> Seq<ObjectId>
    decreases count, queue.len(),
{
    if count == 0 || queue.len() == 0 {
        Seq::empty()
    } else if visited.contains(queue[0]) {
        breadth(commits, queue.drop_first(), visited, count)
    } else {
        seq![queue[0]] + breadth(
            commits,
            queue.drop_first() + commits[queue[0]].parents@,
            visited.insert(queue[0]),
            (count - 1) as nat,
        )
    }
}

/// The first `count` commits that are visited from some roots.
pub open spec fn breadth_order(
    commits: Map<ObjectId, Commit>,
    roots: Seq<ObjectId>,
    count: nat,
) -> Seq<ObjectId> {
    breadth(commits, roots, Set::empty(), count)
}

/// Whether a commit can be reached from some roots in exactly so many steps.
pub open spec fn reached_in(
    commits: Map<ObjectId, Commit>,
    roots: Seq<ObjectId>,
    target: ObjectId,
    steps: nat,
) -> bool
    decreases steps,
{
    if steps == 0 {
        roots.contains(target)
    } else {
        exists|child: ObjectId|
            reached_in(commits, roots, child, (steps - 1) as nat)
                && #[trigger] commits[child].parents@.contains(target)
    }
}

/// Whether a commit can be reached from some roots.
pub open spec fn reachable(
    commits: Map<ObjectId, Commit>,
    roots: Seq<ObjectId>,
    target: ObjectId,
) -> bool {
    exists|steps: nat| #[trigger] reached_in(commits, roots, target, steps)
}

proof fn lemma_parent_reachable(
    commits: Map<ObjectId, Commit>,
    roots: Seq<ObjectId>,
    child: ObjectId,
    parent: ObjectId,
)
    requires
        reachable(commits, roots, child),
        commits[child].parents@.contains(parent),
    ensures
        reachable(commits, roots, parent),
{
    let steps = choose|steps: nat| #[trigger] reached_in(commits, roots, child, steps);
    assert(reached_in(commits, roots, child, ((steps + 1) - 1) as nat));
    assert(reached_in(commits, roots, parent, steps + 1));
}

/// A set of commits that holds the roots and every parent of its commits holds
/// everything that can be reached.
proof fn lemma_closed_set(
    commits: Map<ObjectId, Commit>,
    roots: Seq<ObjectId>,
    all: Set<ObjectId>,
    target: ObjectId,
    steps: nat,
)
    requires
        forall|oid: ObjectId| #[trigger] roots.contains(oid) ==> all.contains(oid),
        forall|child: ObjectId, parent: ObjectId|
            all.contains(child) && #[trigger] commits[child].parents@.contains(parent)
                ==> all.contains(parent),
        reached_in(commits, roots, target, steps),
    ensures
        all.contains(target),
    decreases steps,
{
    if steps > 0 {
        let child = choose|child: ObjectId|
            reached_in(commits, roots, child, (steps - 1) as nat)
                && #[trigger] commits[child].parents@.contains(target);
        lemma_closed_set(commits, roots, all, child, (steps - 1) as nat);
    }
}

/// Pending commits with the number of steps that lead to them, and the visits
/// that a breadth-first walk makes, each with its number of steps.
pub open spec fn breadth_levels(
    commits: Map<ObjectId, Commit>,
    queue: Seq<(ObjectId, nat)>,
    visited: Set<ObjectId>,
    count: nat,
) -> Seq<(ObjectId, nat)>
    decreases count, queue.len(),
{
    if count == 0 || queue.len() == 0 {
        Seq::empty()
    } else if visited.contains(queue[0].0) {
        breadth_levels(commits, queue.drop_first(), visited, count)
    } else {
        let (oid, level) = queue[0];
        seq![(oid, level)] + breadth_levels(
            commits,
            queue.drop_first() + parents_at(commits[oid].parents@, level + 1),
            visited.insert(oid),
            (count - 1) as nat,
        )
    }
}

pub open spec fn parents_at(parents: Seq<ObjectId>, level: nat) -> Seq<(ObjectId, nat)> {
    parents.map_values(|oid: ObjectId| (oid, level))
}

pub open spec fn without_levels(visits: Seq<(ObjectId, nat)>) -> Seq<ObjectId> {
    visits.map_values(|visit: (ObjectId, nat)| visit.0)
}

/// The levels of pending commits never fall and span at most two.
pub open spec fn levels_rise(queue: Seq<(ObjectId, nat)>) -> bool {
    &&& forall|i: int, j: int|
        0 <= i <= j < queue.len() ==> (#[trigger] queue[i]).1 <= (#[trigger] queue[j]).1
    &&& queue.len() > 0 ==> queue.last().1 <= queue[0].1 + 1
}

proof fn lemma_levels_rise(
    commits: Map<ObjectId, Commit>,
    queue: Seq<(ObjectId, nat)>,
    visited: Set<ObjectId>,
    count: nat,
)
    requires
        levels_rise(queue),
    ensures
        without_levels(breadth_levels(commits, queue, visited, count)) == breadth(
            commits,
            without_levels(queue),
            visited,
            count,
        ),
        forall|i: int, j: int|
            0 <= i <= j < breadth_levels(commits, queue, visited, count).len() ==> (
            #[trigger] breadth_levels(commits, queue, visited, count)[i]).1 <= (
            #[trigger] breadth_levels(commits, queue, visited, count)[j]).1,
        forall|i: int|
            0 <= i < breadth_levels(commits, queue, visited, count).len() && queue.len() > 0 ==> (
            #[trigger] breadth_levels(commits, queue, visited, count)[i]).1 >= queue[0].1,
    decreases count, queue.len(),
{
    let visits = breadth_levels(commits, queue, visited, count);
    let plain = without_levels(queue);
    if count == 0 || queue.len() == 0 {
        assert(without_levels(visits) =~= breadth(commits, plain, visited, count));
    } else {
        let rest = queue.drop_first();
        assert(plain.drop_first() =~= without_levels(rest));
        assert forall|i: int, j: int| 0 <= i <= j < rest.len() implies (#[trigger] rest[i]).1 <= (
        #[trigger] rest[j]).1 by {
            assert(rest[i] == queue[i + 1]);
            assert(rest[j] == queue[j + 1]);
        }
        if visited.contains(queue[0].0) {
            if rest.len() > 0 {
                assert(rest[0] == queue[1]);
                assert(rest.last() == queue.last());
            }
            lemma_levels_rise(commits, rest, visited, count);
            assert forall|i: int| 0 <= i < visits.len() implies (#[trigger] visits[i]).1
                >= queue[0].1 by {
                if rest.len() > 0 {
                    assert(queue[0].1 <= queue[1].1);
                    assert(visits[i].1 >= rest[0].1);
                }
            }
        } else {
            let (oid, level) = queue[0];
            let added = parents_at(commits[oid].parents@, level + 1);
            let next = rest + added;
            assert(without_levels(next) =~= plain.drop_first() + commits[oid].parents@);
            assert forall|i: int, j: int| 0 <= i <= j < next.len() implies (#[trigger] next[i]).1
                <= (#[trigger] next[j]).1 by {
                if j < rest.len() {
                    assert(rest[i].1 <= rest[j].1);
                } else if i < rest.len() {
                    assert(queue[i + 1].1 <= queue[queue.len() - 1].1);
                }
            }
            if next.len() > 0 {
                if rest.len() > 0 {
                    assert(next[0] == queue[1]);
                    assert(queue[0].1 <= queue[1].1);
                    if added.len() == 0 {
                        assert(next.last() == queue.last());
                    }
                }
            }
            lemma_levels_rise(commits, next, visited.insert(oid), (count - 1) as nat);
            let tail = breadth_levels(commits, next, visited.insert(oid), (count - 1) as nat);
            assert(without_levels(visits) =~= seq![oid] + without_levels(tail));
            assert(without_levels(visits) =~= breadth(commits, plain, visited, count));
            assert forall|i: int| 0 <= i < tail.len() implies (#[trigger] tail[i]).1 >= level by {
                if next.len() > 0 {
                    assert(tail[i].1 >= next[0].1);
                    if rest.len() > 0 {
                        assert(next[0] == queue[1]);
                        assert(queue[0].1 <= queue[1].1);
                    } else {
                        assert(next[0] == added[0]);
                    }
                }
            }
            assert forall|i: int, j: int| 0 <= i <= j < visits.len() implies (
            #[trigger] visits[i]).1 <= (#[trigger] visits[j]).1 by {
                if i > 0 {
                    assert(visits[i] == tail[i - 1]);
                    assert(visits[j] == tail[j - 1]);
                } else if j > 0 {
                    assert(visits[j] == tail[j - 1]);
                }
            }
            assert forall|i: int| 0 <= i < visits.len() implies (#[trigger] visits[i]).1
                >= queue[0].1 by {
                if i > 0 {
                    assert(visits[i] == tail[i - 1]);
                }
            }
        }
    }
}

/// Whether a commit is pending at some level.
spec fn is_pending(queue: Seq<(ObjectId, nat)>, oid: ObjectId) -> bool {
    exists|k: int| 0 <= k < queue.len() && (#[trigger] queue[k]).0 == oid
}

/// Everything nearer than the first pending commit has been visited, everything as
/// near has been visited or is pending there, and no parent is forgotten.
spec fn frontier_holds(
    commits: Map<ObjectId, Commit>,
    roots: Seq<ObjectId>,
    queue: Seq<(ObjectId, nat)>,
    visited: Set<ObjectId>,
) -> bool {
    &&& forall|k: int|
        0 <= k < queue.len() ==> reached_in(
            commits,
            roots,
            (#[trigger] queue[k]).0,
            queue[k].1,
        )
    &&& queue.len() > 0 ==> forall|oid: ObjectId, steps: nat| #[trigger]
        reached_in(commits, roots, oid, steps) && steps < queue[0].1 ==> visited.contains(oid)
    &&& queue.len() > 0 ==> forall|oid: ObjectId, steps: nat| #[trigger]
        reached_in(commits, roots, oid, steps) && steps == queue[0].1 ==> visited.contains(oid)
            || queue.contains((oid, steps))
    &&& forall|child: ObjectId, parent: ObjectId|
        visited.contains(child) && #[trigger] commits[child].parents@.contains(parent)
            ==> visited.contains(parent) || is_pending(queue, parent)
}

/// Taking the first pending commit and queueing its parents, if it was not visited
/// before, keeps the frontier.
proof fn lemma_frontier_step(
    commits: Map<ObjectId, Commit>,
    roots: Seq<ObjectId>,
    queue: Seq<(ObjectId, nat)>,
    visited: Set<ObjectId>,
    next: Seq<(ObjectId, nat)>,
)
    requires
        queue.len() > 0,
        levels_rise(queue),
        frontier_holds(commits, roots, queue, visited),
        next == queue.drop_first() + (if visited.contains(queue[0].0) {
            Seq::empty()
        } else {
            parents_at(commits[queue[0].0].parents@, queue[0].1 + 1)
        }),
    ensures
        levels_rise(next),
        frontier_holds(commits, roots, next, visited.insert(queue[0].0)),
{
    let (first, level) = queue[0];
    let rest = queue.drop_first();
    let all = visited.insert(first);
    assert forall|k: int| 0 <= k < next.len() implies level <= (#[trigger] next[k]).1 <= level + 1
        && reached_in(commits, roots, next[k].0, next[k].1) by {
        if k < rest.len() {
            assert(next[k] == queue[k + 1]);
            assert(queue[0].1 <= queue[k + 1].1);
            assert(queue[k + 1].1 <= queue[queue.len() - 1].1);
        } else {
            let parent = next[k].0;
            let parents = commits[first].parents@;
            assert(parents[k - rest.len()] == parent);
            assert(parents.contains(parent));
            assert(reached_in(commits, roots, first, ((level + 1) - 1) as nat));
            assert(reached_in(commits, roots, parent, level + 1));
        }
    }
    assert forall|i: int, j: int| 0 <= i <= j < next.len() implies (#[trigger] next[i]).1 <= (
    #[trigger] next[j]).1 by {
        if j < rest.len() {
            assert(next[i] == queue[i + 1] && next[j] == queue[j + 1]);
        }
    }
    assert forall|oid: ObjectId| #[trigger] is_pending(queue, oid) implies oid == first
        || is_pending(next, oid) by {
        let k = choose|k: int| 0 <= k < queue.len() && (#[trigger] queue[k]).0 == oid;
        if k > 0 {
            assert(next[k - 1] == queue[k]);
        }
    }
    assert forall|child: ObjectId, parent: ObjectId|
        all.contains(child) && #[trigger] commits[child].parents@.contains(parent) implies
        all.contains(parent) || is_pending(next, parent) by {
        if !visited.contains(child) {
            let parents = commits[first].parents@;
            let i = choose|i: int| 0 <= i < parents.len() && parents[i] == parent;
            assert(next[rest.len() + i].0 == parent);
        }
    }
    if next.len() > 0 {
        let front = next[0].1;
        assert forall|oid: ObjectId, steps: nat| #[trigger]
            reached_in(commits, roots, oid, steps) && steps < front implies all.contains(oid) by {
            if steps == level && !visited.contains(oid) {
                let k = choose|k: int| 0 <= k < queue.len() && queue[k] == (oid, steps);
                if k > 0 {
                    assert(next[k - 1] == queue[k]);
                    assert(next[0].1 <= next[k - 1].1);
                }
            }
        }
        assert forall|oid: ObjectId, steps: nat| #[trigger]
            reached_in(commits, roots, oid, steps) && steps == front implies all.contains(oid)
            || next.contains((oid, steps)) by {
            if !all.contains(oid) {
                if front == level {
                    let k = choose|k: int| 0 <= k < queue.len() && queue[k] == (oid, steps);
                    assert(k > 0);
                    assert(next[k - 1] == (oid, steps));
                } else {
                    let child = choose|child: ObjectId|
                        reached_in(commits, roots, child, (steps - 1) as nat)
                            && #[trigger] commits[child].parents@.contains(oid);
                    assert(all.contains(child));
                    assert(is_pending(next, oid));
                    let k = choose|k: int| 0 <= k < next.len() && (#[trigger] next[k]).0 == oid;
                    assert(next[0].1 <= next[k].1);
                    assert(next[k] == (oid, steps));
                }
            }
        }
    }
}

proof fn lemma_levels_are_distances(
    commits: Map<ObjectId, Commit>,
    roots: Seq<ObjectId>,
    queue: Seq<(ObjectId, nat)>,
    visited: Set<ObjectId>,
    count: nat,
)
    requires
        levels_rise(queue),
        frontier_holds(commits, roots, queue, visited),
    ensures
        forall|i: int|
            0 <= i < breadth_levels(commits, queue, visited, count).len() ==> reached_in(
                commits,
                roots,
                (#[trigger] breadth_levels(commits, queue, visited, count)[i]).0,
                breadth_levels(commits, queue, visited, count)[i].1,
            ),
        forall|i: int, oid: ObjectId, steps: nat|
            #![trigger breadth_levels(commits, queue, visited, count)[i], reached_in(
                commits,
                roots,
                oid,
                steps,
            )]
            0 <= i < breadth_levels(commits, queue, visited, count).len() && reached_in(
                commits,
                roots,
                oid,
                steps,
            ) && steps < breadth_levels(commits, queue, visited, count)[i].1 ==> visited.contains(
                oid,
            ) || exists|j: int|
                0 <= j < i && (#[trigger] breadth_levels(commits, queue, visited, count)[j]).0
                    == oid,
    decreases count, queue.len(),
{
    let visits = breadth_levels(commits, queue, visited, count);
    if count > 0 && queue.len() > 0 {
        let (first, level) = queue[0];
        let rest = queue.drop_first();
        if visited.contains(first) {
            assert(rest + Seq::<(ObjectId, nat)>::empty() =~= rest);
            assert(visited.insert(first) =~= visited);
            lemma_frontier_step(commits, roots, queue, visited, rest);
            lemma_levels_are_distances(commits, roots, rest, visited, count);
            let same = breadth_levels(commits, rest, visited, count);
            assert(visits == same);
            assert forall|i: int| 0 <= i < visits.len() implies reached_in(
                commits,
                roots,
                (#[trigger] visits[i]).0,
                visits[i].1,
            ) by {
                assert(visits[i] == same[i]);
            }
            assert forall|i: int, oid: ObjectId, steps: nat|
                #![trigger visits[i], reached_in(commits, roots, oid, steps)]
                0 <= i < visits.len() && reached_in(commits, roots, oid, steps) && steps
                    < visits[i].1 implies visited.contains(oid) || exists|j: int|
                0 <= j < i && (#[trigger] visits[j]).0 == oid by {
                assert(visits[i] == same[i]);
                if !visited.contains(oid) {
                    let j = choose|j: int| 0 <= j < i && (#[trigger] same[j]).0 == oid;
                    assert(visits[j] == same[j]);
                }
            }
        } else {
            let next = rest + parents_at(commits[first].parents@, level + 1);
            let all = visited.insert(first);
            lemma_frontier_step(commits, roots, queue, visited, next);
            lemma_levels_are_distances(commits, roots, next, all, (count - 1) as nat);
            let tail = breadth_levels(commits, next, all, (count - 1) as nat);
            assert(visits =~= seq![(first, level)] + tail);
            assert forall|i: int| 0 <= i < visits.len() implies reached_in(
                commits,
                roots,
                (#[trigger] visits[i]).0,
                visits[i].1,
            ) by {
                if i > 0 {
                    assert(visits[i] == tail[i - 1]);
                } else {
                    assert(queue[0] == visits[0]);
                }
            }
            assert forall|i: int, oid: ObjectId, steps: nat|
                #![trigger visits[i], reached_in(commits, roots, oid, steps)]
                0 <= i < visits.len() && reached_in(commits, roots, oid, steps) && steps
                    < visits[i].1 implies visited.contains(oid) || exists|j: int|
                0 <= j < i && (#[trigger] visits[j]).0 == oid by {
                if i > 0 && !visited.contains(oid) {
                    assert(visits[i] == tail[i - 1]);
                    if oid == first {
                        assert(visits[0].0 == oid);
                    } else {
                        let j = choose|j: int| 0 <= j < i - 1 && (#[trigger] tail[j]).0 == oid;
                        assert(visits[j + 1] == tail[j]);
                    }
                }
            }
        }
    }
}

/// The fewest steps that lead to a commit.
pub open spec fn is_distance(
    commits: Map<ObjectId, Commit>,
    roots: Seq<ObjectId>,
    oid: ObjectId,
    distance: nat,
) -> bool {
    &&& reached_in(commits, roots, oid, distance)
    &&& forall|steps: nat| steps < distance ==> !#[trigger] reached_in(commits, roots, oid, steps)
}

/// A breadth-first walk visits every nearer commit, on every side of a merge,
/// before one that lies deeper.
pub proof fn near_commits_are_visited_first(
    commits: Map<ObjectId, Commit>,
    roots: Seq<ObjectId>,
    count: nat,
    at: int,
    distance: nat,
    near: ObjectId,
    nearer: nat,
)
    requires
        0 <= at < breadth_order(commits, roots, count).len(),
        is_distance(commits, roots, breadth_order(commits, roots, count)[at], distance),
        is_distance(commits, roots, near, nearer),
        nearer < distance,
    ensures
        exists|before: int|
            0 <= before < at && #[trigger] breadth_order(commits, roots, count)[before] == near,
{
    let queue = parents_at(roots, 0);
    let order = breadth_order(commits, roots, count);
    let visits = breadth_levels(commits, queue, Set::empty(), count);
    assert(without_levels(queue) =~= roots);
    assert forall|oid: ObjectId, steps: nat| #[trigger]
        reached_in(commits, roots, oid, steps) && steps == 0 implies queue.contains(
        (oid, steps),
    ) by {
        let i = choose|i: int| 0 <= i < roots.len() && roots[i] == oid;
        assert(queue[i] == (oid, 0nat));
    }
    assert forall|k: int| 0 <= k < queue.len() implies reached_in(
        commits,
        roots,
        (#[trigger] queue[k]).0,
        queue[k].1,
    ) by {
        assert(roots.contains(roots[k]));
    }
    assert(frontier_holds(commits, roots, queue, Set::empty()));
    lemma_levels_rise(commits, queue, Set::empty(), count);
    lemma_levels_are_distances(commits, roots, queue, Set::empty(), count);
    assert(order == without_levels(visits));
    let level = visits[at].1;
    assert(visits[at].0 == order[at]);
    assert(reached_in(commits, roots, order[at], level));
    if level < distance {
        assert(!reached_in(commits, roots, order[at], level));
    }
    let before = choose|before: int| 0 <= before < at && (#[trigger] visits[before]).0 == near;
    assert(order[before] == near);
}

/// What can be reached is the roots, the parents of what can be reached, and nothing
/// that a set of commits can do without that holds the roots and all parents of its own.
pub proof fn what_can_be_reached(
    commits: Map<ObjectId, Commit>,
    roots: Seq<ObjectId>,
    all: Set<ObjectId>,
)
    ensures
        forall|i: int| 0 <= i < roots.len() ==> reachable(commits, roots, #[trigger] roots[i]),
        forall|child: ObjectId, k: int|
            reachable(commits, roots, child) && 0 <= k < commits[child].parents@.len()
                ==> reachable(commits, roots, #[trigger] commits[child].parents@[k]),
        (forall|i: int| 0 <= i < roots.len() ==> all.contains(#[trigger] roots[i])) && (forall|
            child: ObjectId,
            k: int,
        |
            all.contains(child) && 0 <= k < commits[child].parents@.len() ==> all.contains(
                #[trigger] commits[child].parents@[k],
            )) ==> forall|target: ObjectId| #[trigger]
            reachable(commits, roots, target) ==> all.contains(target),
{
    assert forall|i: int| 0 <= i < roots.len() implies reachable(
        commits,
        roots,
        #[trigger] roots[i],
    ) by {
        assert(roots.contains(roots[i]));
        assert(reached_in(commits, roots, roots[i], 0));
    }
    assert forall|child: ObjectId, k: int|
        reachable(commits, roots, child) && 0 <= k < commits[child].parents@.len() implies reachable(
        commits,
        roots,
        #[trigger] commits[child].parents@[k],
    ) by {
        assert(commits[child].parents@.contains(commits[child].parents@[k]));
        lemma_parent_reachable(commits, roots, child, commits[child].parents@[k]);
    }
    if (forall|i: int| 0 <= i < roots.len() ==> all.contains(#[trigger] roots[i])) && (forall|
        child: ObjectId,
        k: int,
    |
        all.contains(child) && 0 <= k < commits[child].parents@.len() ==> all.contains(
            #[trigger] commits[child].parents@[k],
        )) {
        assert forall|oid: ObjectId| #[trigger] roots.contains(oid) implies all.contains(oid) by {
            let i = choose|i: int| 0 <= i < roots.len() && roots[i] == oid;
            assert(all.contains(roots[i]));
        }
        assert forall|child: ObjectId, parent: ObjectId|
            all.contains(child) && #[trigger] commits[child].parents@.contains(
                parent,
            ) implies all.contains(parent) by {
            let parents = commits[child].parents@;
            let k = choose|k: int| 0 <= k < parents.len() && parents[k] == parent;
            assert(all.contains(commits[child].parents@[k]));
        }
        assert forall|target: ObjectId| #[trigger]
            reachable(commits, roots, target) implies all.contains(target) by {
            let steps = choose|steps: nat| #[trigger] reached_in(commits, roots, target, steps);
            lemma_closed_set(commits, roots, all, target, steps);
        }
    }
}

/// What is waiting once some commits of a search have been visited, those visited among
/// them: the roots, and behind them the parents of one visited commit after another.
pub open spec fn waiting_line(
    commits: Map<ObjectId, Commit>,
    roots: Seq<ObjectId>,
    order: Seq<ObjectId>,
    count: int,
) -> Seq<ObjectId>
    decreases count,
{
    if count <= 0 {
        roots
    } else {
        waiting_line(commits, roots, order, count - 1) + commits[order[count - 1]].parents@
    }
}

proof fn lemma_line_shifts(
    commits: Map<ObjectId, Commit>,
    first: ObjectId,
    behind: Seq<ObjectId>,
    rest: Seq<ObjectId>,
    count: int,
)
    requires
        1 <= count <= rest.len() + 1,
    ensures
        waiting_line(commits, seq![first] + behind, seq![first] + rest, count) == seq![first]
            + waiting_line(commits, behind + commits[first].parents@, rest, count - 1),
    decreases count,
{
    let all = seq![first] + rest;
    let queue = seq![first] + behind;
    if count == 1 {
        assert(all[0] == first);
        reveal_with_fuel(waiting_line, 2);
        assert(queue + commits[first].parents@ =~= seq![first] + (behind
            + commits[first].parents@));
    } else {
        lemma_line_shifts(commits, first, behind, rest, count - 1);
        assert(all[count - 1] == rest[count - 2]);
        assert(waiting_line(commits, queue, all, count) =~= seq![first] + waiting_line(
            commits,
            behind + commits[first].parents@,
            rest,
            count - 1,
        ));
    }
}

proof fn lemma_line_without_first(
    commits: Map<ObjectId, Commit>,
    queue: Seq<ObjectId>,
    order: Seq<ObjectId>,
    count: int,
)
    requires
        queue.len() > 0,
        0 <= count,
    ensures
        waiting_line(commits, queue, order, count) == seq![queue[0]] + waiting_line(
            commits,
            queue.drop_first(),
            order,
            count,
        ),
    decreases count,
{
    if count == 0 {
        assert(queue =~= seq![queue[0]] + queue.drop_first());
    } else {
        lemma_line_without_first(commits, queue, order, count - 1);
        assert(waiting_line(commits, queue, order, count) =~= seq![queue[0]] + waiting_line(
            commits,
            queue.drop_first(),
            order,
            count,
        ));
    }
}

/// Whether a commit has been visited before a place of a search.
pub open spec fn visited_before(
    order: Seq<ObjectId>,
    visited: Set<ObjectId>,
    count: int,
    oid: ObjectId,
) -> bool {
    visited.contains(oid) || exists|k: int| 0 <= k < count && #[trigger] order[k] == oid
}

proof fn lemma_first_in_line(
    commits: Map<ObjectId, Commit>,
    queue: Seq<ObjectId>,
    visited: Set<ObjectId>,
    count: nat,
    at: int,
) -> (place: int)
    requires
        0 <= at < breadth(commits, queue, visited, count).len(),
    ensures
        ({
            let order = breadth(commits, queue, visited, count);
            let line = waiting_line(commits, queue, order, at);
            &&& 0 <= place < line.len()
            &&& line[place] == order[at]
            &&& !visited_before(order, visited, at, order[at])
            &&& forall|k: int|
                0 <= k < place ==> visited_before(order, visited, at, #[trigger] line[k])
        }),
    decreases count, queue.len(),
{
    let order = breadth(commits, queue, visited, count);
    let line = waiting_line(commits, queue, order, at);
    let first = queue[0];
    let behind = queue.drop_first();
    if visited.contains(first) {
        let place = lemma_first_in_line(commits, behind, visited, count, at);
        lemma_line_without_first(commits, queue, order, at);
        let less = waiting_line(commits, behind, order, at);
        assert forall|k: int| 0 <= k < place + 1 implies visited_before(
            order,
            visited,
            at,
            #[trigger] line[k],
        ) by {
            if k > 0 {
                assert(line[k] == less[k - 1]);
            }
        }
        place + 1
    } else if at == 0 {
        0
    } else {
        let next = behind + commits[first].parents@;
        let after = visited.insert(first);
        let rest = breadth(commits, next, after, (count - 1) as nat);
        let place = lemma_first_in_line(commits, next, after, (count - 1) as nat, at - 1);
        let less = waiting_line(commits, next, rest, at - 1);
        assert(queue =~= seq![first] + behind);
        assert(order == seq![first] + rest);
        lemma_line_shifts(commits, first, behind, rest, at);
        assert(line == seq![first] + less);
        assert(order[at] == rest[at - 1]);
        assert(order[0] == first);
        assert forall|oid: ObjectId| #[trigger]
            visited_before(order, visited, at, oid) == visited_before(rest, after, at - 1, oid) by {
            if visited_before(rest, after, at - 1, oid) && !after.contains(oid) {
                let k = choose|k: int| 0 <= k < at - 1 && #[trigger] rest[k] == oid;
                assert(order[k + 1] == oid);
            }
            if visited_before(order, visited, at, oid) && !visited.contains(oid) {
                let k = choose|k: int| 0 <= k < at && #[trigger] order[k] == oid;
                if k > 0 {
                    assert(rest[k - 1] == oid);
                }
            }
        }
        assert forall|k: int| 0 <= k < place + 1 implies visited_before(
            order,
            visited,
            at,
            #[trigger] line[k],
        ) by {
            if k > 0 {
                assert(line[k] == less[k - 1]);
                assert(visited_before(rest, after, at - 1, less[k - 1]));
            }
        }
        place + 1
    }
}

/// A search takes its commits from a line: the roots first, and behind them the parents
/// of each visited commit, in the order of the visits. Every visit is to the first commit
/// of the line that was not visited before.
pub proof fn a_search_takes_the_first_that_waits(
    commits: Map<ObjectId, Commit>,
    roots: Seq<ObjectId>,
    count: nat,
    at: int,
) -> (place: int)
    requires
        0 <= at < breadth_order(commits, roots, count).len(),
    ensures
        ({
            let order = breadth_order(commits, roots, count);
            let line = waiting_line(commits, roots, order, at);
            &&& 0 <= place < line.len()
            &&& line[place] == order[at]
            &&& forall|k: int| 0 <= k < at ==> #[trigger] order[k] != order[at]
            &&& forall|k: int|
                0 <= k < place ==> exists|earlier: int|
                    0 <= earlier < at && #[trigger] order[earlier] == #[trigger] line[k]
        }),
{
    let order = breadth_order(commits, roots, count);
    let place = lemma_first_in_line(commits, roots, Set::empty(), count, at);
    let line = waiting_line(commits, roots, order, at);
    assert forall|k: int| 0 <= k < place implies exists|earlier: int|
        0 <= earlier < at && #[trigger] order[earlier] == #[trigger] line[k] by {
        assert(visited_before(order, Set::empty(), at, line[k]));
    }
    place
}

/// What a proof of reachability needs next.
#[derive(Debug, Clone, Copy, PartialEq, Eq, Structural)]
pub enum ReachRequest {
    /// Account for a commit and read it.
    Read { oid: ObjectId },
    /// Account for the target, which has been reached.
    Reached,
    /// The target cannot be reached.
    Unreachable,
}

/// The breadth-first search for one commit.
pub struct ReachWalk {
    target: ObjectId,
    pending: VecDeque<ObjectId>,
    visited: IdMap<ObjectId, ()>,
    awaiting: Option<ObjectId>,
    roots: Ghost<Seq<ObjectId>>,
    order: Ghost<Seq<ObjectId>>,
    replies: Ghost<Map<ObjectId, Commit>>,
}

impl ReachWalk {
    pub closed spec fn target(self) -> ObjectId {
        self.target
    }

    pub closed spec fn roots(self) -> Seq<ObjectId> {
        self.roots@
    }

    /// The commits visited so far.
    pub closed spec fn order(self) -> Seq<ObjectId> {
        self.order@
    }

    /// The commits handed back so far.
    pub closed spec fn replies(self) -> Map<ObjectId, Commit> {
        self.replies@
    }

    /// The commit that was asked for and not handed back yet.
    pub closed spec fn awaiting(self) -> Option<ObjectId> {
        self.awaiting
    }

    spec fn queue(self) -> Seq<ObjectId> {
        match self.awaiting {
            Some(oid) => seq![oid] + self.pending@,
            None => self.pending@,
        }
    }

    spec fn seen(self) -> Set<ObjectId> {
        self.visited.contents().dom()
    }

    pub closed spec fn wf(self) -> bool {
        &&& self.visited.wf()
        &&& self.replies@.dom() =~= self.seen()
        &&& !self.seen().contains(self.target)
        &&& self.awaiting matches Some(oid) ==> !self.seen().contains(oid) && oid != self.target
        &&& forall|commits: Map<ObjectId, Commit>, count: nat|
            crate::replies::agrees(self.replies@, commits) && count >= self.order@.len()
                ==> #[trigger] breadth_order(commits, self.roots@, count) == self.order@ + breadth(
                commits,
                self.queue(),
                self.seen(),
                (count - self.order@.len()) as nat,
            )
        &&& forall|commits: Map<ObjectId, Commit>| #[trigger]
            crate::replies::agrees(self.replies@, commits) ==> self.tracks(commits)
    }

    /// Everything pending can be reached; roots and parents are visited or pending.
    spec fn tracks(self, commits: Map<ObjectId, Commit>) -> bool {
        &&& forall|oid: ObjectId| #[trigger]
            self.queue().contains(oid) ==> reachable(commits, self.roots@, oid)
        &&& forall|oid: ObjectId| #[trigger]
            self.roots@.contains(oid) ==> self.seen().contains(oid) || self.queue().contains(oid)
        &&& forall|child: ObjectId, parent: ObjectId|
            self.seen().contains(child) && #[trigger] commits[child].parents@.contains(parent)
                ==> self.seen().contains(parent) || self.queue().contains(parent)
    }

    /// The commit that is visited after those visited.
    pub open spec fn due(self, oid: ObjectId) -> bool {
        forall|commits: Map<ObjectId, Commit>, count: nat|
            crate::replies::agrees(self.replies(), commits) && count > self.order().len() ==> {
                let all = #[trigger] breadth_order(commits, self.roots(), count);
                all.len() > self.order().len() && all.subrange(0, 1 + self.order().len() as int)
                    == self.order().push(oid)
            }
    }

    /// Everything that can be reached has been visited.
    pub open spec fn exhausted(self) -> bool {
        forall|commits: Map<ObjectId, Commit>, count: nat|
            crate::replies::agrees(self.replies(), commits) && count >= self.order().len()
                ==> #[trigger] breadth_order(commits, self.roots(), count) == self.order()
    }

    /// Begin a search from some roots.
    pub fn new(target: ObjectId, roots: &Vec<ObjectId>) -> (result: ReachWalk)
        ensures
            result.wf(),
            result.target() == target,
            result.roots() == roots@,
            result.order() == Seq::<ObjectId>::empty(),
            result.replies() == Map::<ObjectId, Commit>::empty(),
            result.awaiting() is None,
    {
        let mut pending: VecDeque<ObjectId> = VecDeque::new();
        let mut at: usize = 0;
        while at < roots.len()
            invariant
                at <= roots@.len(),
                pending@ == roots@.subrange(0, at as int),
            decreases roots@.len() - at,
        {
            pending.push_back(roots[at]);
            at += 1;
            assert(pending@ =~= roots@.subrange(0, at as int));
        }
        let walk = ReachWalk {
            target,
            pending,
            visited: IdMap::new(),
            awaiting: None,
            roots: Ghost(roots@),
            order: Ghost(Seq::empty()),
            replies: Ghost(Map::empty()),
        };
        proof {
            assert(walk.pending@ =~= roots@);
            assert(walk.seen() =~= Set::empty());
            assert forall|commits: Map<ObjectId, Commit>, count: nat|
                #[trigger] breadth_order(commits, roots@, count) == walk.order@ + breadth(
                commits,
                walk.queue(),
                walk.seen(),
                (count - walk.order@.len()) as nat,
            ) by {
                assert(walk.order@ + breadth(commits, walk.queue(), walk.seen(), count)
                    =~= breadth(commits, walk.queue(), walk.seen(), count));
            }
            assert forall|commits: Map<ObjectId, Commit>| #[trigger]
                crate::replies::agrees(walk.replies@, commits) implies walk.tracks(commits) by {
                assert forall|oid: ObjectId| #[trigger] walk.queue().contains(oid) implies
                    reachable(commits, walk.roots@, oid) by {
                    assert(reached_in(commits, walk.roots@, oid, 0));
                }
            }
        }
        walk
    }

    /// What the search needs next. Asking again before a commit is handed back
    /// names the same commit.
    pub fn next(&mut self) -> (result: ReachRequest)
        requires
            old(self).wf(),
        ensures
            final(self).target() == old(self).target(),
            final(self).roots() == old(self).roots(),
            final(self).order() == old(self).order(),
            final(self).replies() == old(self).replies(),
            match result {
                ReachRequest::Read { oid } => {
                    &&& final(self).wf()
                    &&& final(self).awaiting() == Some(oid)
                    &&& final(self).due(oid)
                    &&& oid != final(self).target()
                    &&& !final(self).replies().dom().contains(oid)
                },
                ReachRequest::Reached => {
                    &&& final(self).due(final(self).target())
                    &&& forall|commits: Map<ObjectId, Commit>| #[trigger]
                        crate::replies::agrees(final(self).replies(), commits) ==> reachable(
                            commits,
                            final(self).roots(),
                            final(self).target(),
                        )
                },
                ReachRequest::Unreachable => {
                    &&& final(self).exhausted()
                    &&& forall|commits: Map<ObjectId, Commit>| #[trigger]
                        crate::replies::agrees(final(self).replies(), commits) ==> !reachable(
                            commits,
                            final(self).roots(),
                            final(self).target(),
                        )
                },
            },
    {
        if let Some(oid) = self.awaiting {
            proof {
                self.lemma_due(oid);
            }
            return ReachRequest::Read { oid };
        }
        loop
            invariant
                self.wf(),
                self.awaiting is None,
                self.target == old(self).target,
                self.roots == old(self).roots,
                self.order == old(self).order,
                self.replies == old(self).replies,
            decreases self.pending@.len(),
        {
            let ghost before = *self;
            match self.pending.pop_front() {
                None => {
                    proof {
                        assert forall|commits: Map<ObjectId, Commit>, count: nat|
                            crate::replies::agrees(self.replies(), commits) && count
                                >= self.order().len() implies #[trigger] breadth_order(
                            commits,
                            self.roots(),
                            count,
                        ) == self.order() by {
                            assert(self.order@ + Seq::<ObjectId>::empty() =~= self.order@);
                        }
                        assert forall|commits: Map<ObjectId, Commit>| #[trigger]
                            crate::replies::agrees(self.replies(), commits) implies !reachable(
                            commits,
                            self.roots(),
                            self.target(),
                        ) by {
                            assert(before.tracks(commits));
                            if reachable(commits, self.roots(), self.target()) {
                                let steps = choose|steps: nat| #[trigger]
                                    reached_in(commits, self.roots@, self.target, steps);
                                assert forall|oid: ObjectId| #[trigger]
                                    self.roots@.contains(oid) implies before.seen().contains(
                                    oid,
                                ) by {
                                    assert(!before.queue().contains(oid));
                                }
                                assert forall|child: ObjectId, parent: ObjectId|
                                    before.seen().contains(child)
                                        && #[trigger] commits[child].parents@.contains(
                                        parent,
                                    ) implies before.seen().contains(parent) by {
                                    assert(!before.queue().contains(parent));
                                }
                                lemma_closed_set(
                                    commits,
                                    self.roots@,
                                    before.seen(),
                                    self.target,
                                    steps,
                                );
                            }
                        }
                    }
                    return ReachRequest::Unreachable;
                },
                Some(oid) => {
                    proof {
                        assert(before.queue()[0] == oid);
                        assert(before.queue().contains(oid));
                        assert(before.queue().drop_first() =~= self.pending@);
                    }
                    if self.visited.contains(&oid) {
                        proof {
                            assert forall|commits: Map<ObjectId, Commit>| #[trigger]
                                crate::replies::agrees(self.replies@, commits) implies self.tracks(
                                commits,
                            ) by {
                                assert(before.tracks(commits));
                                lemma_queue_shrinks(before.queue());
                            }
                        }
                    } else if oid == self.target {
                        proof {
                            before.lemma_first_is_due();
                            assert(self.roots() == before.roots() && self.order() == before.order()
                                && self.replies() == before.replies());
                            assert(before.due(oid));
                            assert forall|commits: Map<ObjectId, Commit>| #[trigger]
                                crate::replies::agrees(self.replies(), commits) implies reachable(
                                commits,
                                self.roots(),
                                self.target(),
                            ) by {
                                assert(before.tracks(commits));
                            }
                        }
                        return ReachRequest::Reached;
                    } else {
                        self.awaiting = Some(oid);
                        proof {
                            assert(self.queue() =~= before.queue());
                            assert forall|commits: Map<ObjectId, Commit>| #[trigger]
                                crate::replies::agrees(self.replies@, commits) implies self.tracks(
                                commits,
                            ) by {
                                assert(before.tracks(commits));
                            }
                            self.lemma_due(oid);
                        }
                        return ReachRequest::Read { oid };
                    }
                },
            }
        }
    }

    proof fn lemma_due(self, oid: ObjectId)
        requires
            self.wf(),
            self.awaiting == Some(oid),
        ensures
            self.due(oid),
    {
        self.lemma_first_is_due();
    }

    /// A commit at the head of the queue that was not visited is visited next.
    proof fn lemma_first_is_due(self)
        requires
            self.wf(),
            self.queue().len() > 0,
            !self.seen().contains(self.queue()[0]),
        ensures
            self.due(self.queue()[0]),
    {
        let oid = self.queue()[0];
        assert forall|commits: Map<ObjectId, Commit>, count: nat|
            crate::replies::agrees(self.replies(), commits) && count > self.order().len() implies {
            let all = #[trigger] breadth_order(commits, self.roots(), count);
            all.len() > self.order().len() && all.subrange(0, 1 + self.order().len() as int)
                == self.order().push(oid)
        } by {
            let all = breadth_order(commits, self.roots(), count);
            let rest = breadth(
                commits,
                self.queue(),
                self.seen(),
                (count - self.order@.len()) as nat,
            );
            assert(all == self.order@ + rest);
            assert(rest.len() > 0 && rest[0] == oid);
            assert(all.subrange(0, 1 + self.order().len() as int) =~= self.order().push(oid));
        }
    }

    /// Hand back the commit that was asked for.
    pub fn accept(&mut self, commit: &Commit)
        requires
            old(self).wf(),
            old(self).awaiting() is Some,
        ensures
            final(self).wf(),
            final(self).target() == old(self).target(),
            final(self).roots() == old(self).roots(),
            final(self).awaiting() is None,
            final(self).order() == old(self).order().push(old(self).awaiting()->0),
            final(self).replies() == old(self).replies().insert(
                old(self).awaiting()->0,
                *commit,
            ),
    {
        let ghost before = *self;
        if let Some(oid) = self.awaiting {
            self.visited.insert(oid, ());
            let mut at: usize = 0;
            while at < commit.parents.len()
                invariant
                    at <= commit.parents@.len(),
                    self.pending@ == before.pending@ + commit.parents@.subrange(0, at as int),
                    self.target == before.target,
                    self.awaiting == before.awaiting,
                    self.roots == before.roots,
                    self.order == before.order,
                    self.replies == before.replies,
                    self.visited.wf(),
                    self.visited.contents() == before.visited.contents().insert(oid, ()),
                decreases commit.parents@.len() - at,
            {
                self.pending.push_back(commit.parents[at]);
                at += 1;
                assert(self.pending@ =~= before.pending@ + commit.parents@.subrange(
                    0,
                    at as int,
                ));
            }
            self.awaiting = None;
            self.order = Ghost(before.order@.push(oid));
            self.replies = Ghost(before.replies@.insert(oid, *commit));
            proof {
                assert(commit.parents@.subrange(0, at as int) =~= commit.parents@);
                assert(before.queue().drop_first() =~= before.pending@);
                assert(self.queue() =~= before.queue().drop_first() + commit.parents@);
                assert(self.seen() =~= before.seen().insert(oid));
                assert forall|commits: Map<ObjectId, Commit>, count: nat|
                    crate::replies::agrees(self.replies@, commits) && count
                        >= self.order@.len() implies #[trigger] breadth_order(
                    commits,
                    self.roots@,
                    count,
                ) == self.order@ + breadth(
                    commits,
                    self.queue(),
                    self.seen(),
                    (count - self.order@.len()) as nat,
                ) by {
                    crate::replies::agrees_with_earlier_replies(
                        before.replies@,
                        oid,
                        *commit,
                        commits,
                    );
                    let rest = breadth(
                        commits,
                        self.queue(),
                        self.seen(),
                        (count - self.order@.len()) as nat,
                    );
                    assert(before.order@ + (seq![oid] + rest) =~= self.order@ + rest);
                }
                assert forall|commits: Map<ObjectId, Commit>| #[trigger]
                    crate::replies::agrees(self.replies@, commits) implies self.tracks(commits) by {
                    crate::replies::agrees_with_earlier_replies(
                        before.replies@,
                        oid,
                        *commit,
                        commits,
                    );
                    assert(before.tracks(commits));
                    lemma_queue_shrinks(before.queue());
                    lemma_queue_grows(before.pending@, commit.parents@);
                    assert(before.queue()[0] == oid);
                    assert(before.queue().contains(oid));
                    assert forall|o: ObjectId| #[trigger] self.queue().contains(o) implies
                        reachable(commits, self.roots@, o) by {
                        if before.pending@.contains(o) {
                            assert(before.queue().contains(o));
                        } else {
                            assert(commits[oid].parents@.contains(o));
                            lemma_parent_reachable(commits, self.roots@, oid, o);
                        }
                    }
                    assert forall|child: ObjectId, parent: ObjectId|
                        self.seen().contains(child) && #[trigger] commits[child].parents@.contains(
                            parent,
                        ) implies self.seen().contains(parent) || self.queue().contains(parent) by {
                        if child == oid {
                            assert(commit.parents@.contains(parent));
                        } else {
                            assert(before.seen().contains(child));
                        }
                    }
                    assert forall|o: ObjectId| #[trigger] self.roots@.contains(o) implies
                        self.seen().contains(o) || self.queue().contains(o) by {
                        assert(before.seen().contains(o) || before.queue().contains(o));
                    }
                }
            }
        }
    }
}

proof fn lemma_queue_shrinks(queue: Seq<ObjectId>)
    requires
        queue.len() > 0,
    ensures
        forall|oid: ObjectId| #[trigger]
            queue.contains(oid) ==> oid == queue[0] || queue.drop_first().contains(oid),
        forall|oid: ObjectId| #[trigger]
            queue.drop_first().contains(oid) ==> queue.contains(oid),
{
    let rest = queue.drop_first();
    assert forall|oid: ObjectId| #[trigger] queue.contains(oid) implies oid == queue[0]
        || rest.contains(oid) by {
        let i = choose|i: int| 0 <= i < queue.len() && queue[i] == oid;
        if i > 0 {
            assert(rest[i - 1] == oid);
        }
    }
    assert forall|oid: ObjectId| #[trigger] rest.contains(oid) implies queue.contains(oid) by {
        let i = choose|i: int| 0 <= i < rest.len() && rest[i] == oid;
        assert(queue[i + 1] == oid);
    }
}

proof fn lemma_queue_grows(queue: Seq<ObjectId>, added: Seq<ObjectId>)
    ensures
        forall|oid: ObjectId| #[trigger]
            (queue + added).contains(oid) <==> queue.contains(oid) || added.contains(oid),
{
    assert forall|oid: ObjectId| #[trigger] (queue + added).contains(oid) <==> queue.contains(oid)
        || added.contains(oid) by {
        let all = queue + added;
        if all.contains(oid) {
            let i = choose|i: int| 0 <= i < all.len() && all[i] == oid;
            if i < queue.len() {
                assert(queue[i] == oid);
            } else {
                assert(added[i - queue.len()] == oid);
            }
        }
        if queue.contains(oid) {
            let i = choose|i: int| 0 <= i < queue.len() && queue[i] == oid;
            assert(all[i] == oid);
        }
        if added.contains(oid) {
            let i = choose|i: int| 0 <= i < added.len() && added[i] == oid;
            assert(all[queue.len() + i] == oid);
        }
    }
}

} // verus!
