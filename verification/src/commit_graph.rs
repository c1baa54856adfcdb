use vstd::prelude::*;


use crate::cancel::{Cancellation, check_cpu_cancellation, CPU_CANCELLATION_INTERVAL};
use crate::error::Error;
use crate::id_map::IdMap;
use crate::memory::{reserve, reserve_exact};
use crate::model::{copy_oids, Commit};
use crate::oid::ObjectId;

verus! {

/// What a commit graph records of one commit.
#[derive(Debug, PartialEq, Eq)]
pub struct GraphNode {
    pub generation: u64,
    pub parents: Vec<ObjectId>,
}

/// A verified commit graph: corrected generations and positional parents.
pub struct CommitGraphIndex {
    nodes: IdMap<ObjectId, GraphNode>,
}

impl View for CommitGraphIndex {
    type V = Map<ObjectId, GraphNode>;

    closed spec fn view(&self) -> Map<ObjectId, GraphNode> {
        self.nodes.contents()
    }
}

/// Whether two lists of identities are equal.
pub fn same_oids(a: &[ObjectId], b: &[ObjectId]) -> (result: bool)
    ensures
        result == (a@ == b@),
{
    if a.len() != b.len() {
        return false;
    }
    let mut at: usize = 0;
    while at < a.len()
        invariant
            at <= a@.len(),
            a@.len() == b@.len(),
            forall|k: int| 0 <= k < at ==> a@[k] == b@[k],
        decreases a@.len() - at,
    {
        if a[at] != b[at] {
            return false;
        }
        at += 1;
    }
    assert(a@ =~= b@);
    true
}

/// Whether a graph records exactly these parents for a commit.
pub open spec fn parents_agree(
    graph: Map<ObjectId, GraphNode>,
    oid: ObjectId,
    parents: Seq<ObjectId>,
) -> bool {
    graph.dom().contains(oid) && graph[oid].parents@ == parents
}

/// The rank of a commit's generation; a commit outside the graph ranks lowest.
pub open spec fn generation_rank(graph: Map<ObjectId, GraphNode>, oid: ObjectId) -> int {
    if graph.dom().contains(oid) {
        graph[oid].generation as int
    } else {
        -1
    }
}

/// Whether one parent is visited before another: the younger generation first,
/// equal generations by identity.
pub open spec fn visits_before(
    graph: Map<ObjectId, GraphNode>,
    left: ObjectId,
    right: ObjectId,
) -> bool {
    let l = generation_rank(graph, left);
    let r = generation_rank(graph, right);
    l > r || (l == r && left.before(right))
}

/// Put one parent into its place among ordered ones.
pub open spec fn place_parent(
    graph: Map<ObjectId, GraphNode>,
    ordered: Seq<ObjectId>,
    parent: ObjectId,
) -> Seq<ObjectId>
    decreases ordered.len(),
{
    if ordered.len() > 0 && visits_before(graph, parent, ordered.last()) {
        place_parent(graph, ordered.drop_last(), parent).push(ordered.last())
    } else {
        ordered.push(parent)
    }
}

/// The parents of a commit in the order in which a graph visits them.
pub open spec fn ordered_parents(graph: Map<ObjectId, GraphNode>, parents: Seq<ObjectId>) -> Seq<
    ObjectId,
>
    decreases parents.len(),
{
    if parents.len() == 0 {
        parents
    } else {
        place_parent(graph, ordered_parents(graph, parents.drop_last()), parents.last())
    }
}

proof fn lemma_place_permutes(
    graph: Map<ObjectId, GraphNode>,
    ordered: Seq<ObjectId>,
    parent: ObjectId,
)
    ensures
        place_parent(graph, ordered, parent).to_multiset() == ordered.to_multiset().insert(parent),
        place_parent(graph, ordered, parent).len() == ordered.len() + 1,
    decreases ordered.len(),
{
    broadcast use vstd::seq_lib::group_to_multiset_ensures;

    if ordered.len() > 0 && visits_before(graph, parent, ordered.last()) {
        lemma_place_permutes(graph, ordered.drop_last(), parent);
        assert(ordered =~= ordered.drop_last().push(ordered.last()));
        assert(place_parent(graph, ordered, parent).to_multiset()
            =~= ordered.to_multiset().insert(parent));
    }
}

/// A commit graph can reorder a commit's parents, never hide or invent one.
pub proof fn graph_keeps_every_parent(graph: Map<ObjectId, GraphNode>, parents: Seq<ObjectId>)
    ensures
        ordered_parents(graph, parents).to_multiset() == parents.to_multiset(),
        ordered_parents(graph, parents).len() == parents.len(),
    decreases parents.len(),
{
    broadcast use vstd::seq_lib::group_to_multiset_ensures;

    if parents.len() > 0 {
        graph_keeps_every_parent(graph, parents.drop_last());
        lemma_place_permutes(
            graph,
            ordered_parents(graph, parents.drop_last()),
            parents.last(),
        );
        assert(parents =~= parents.drop_last().push(parents.last()));
    }
}

/// Parents ordered by a graph are sorted: none comes before one that is visited
/// earlier.
pub proof fn graph_order_is_sorted(graph: Map<ObjectId, GraphNode>, parents: Seq<ObjectId>)
    ensures
        forall|i: int, j: int|
            0 <= i < j < ordered_parents(graph, parents).len() ==> !visits_before(
                graph,
                #[trigger] ordered_parents(graph, parents)[j],
                #[trigger] ordered_parents(graph, parents)[i],
            ),
    decreases parents.len(),
{
    if parents.len() > 0 {
        graph_order_is_sorted(graph, parents.drop_last());
        lemma_place_sorts(
            graph,
            ordered_parents(graph, parents.drop_last()),
            parents.last(),
        );
    }
}

/// A graph that records exactly a commit's parents has them visited the youngest
/// generation first, those it does not record last, and equal ones by identity; any
/// other graph, or none, leaves them in the order of the commit.
pub proof fn in_what_order_parents_are_visited(
    graph: Option<Map<ObjectId, GraphNode>>,
    oid: ObjectId,
    parents: Seq<ObjectId>,
)
    ensures
        graph is None ==> parent_visits(graph, oid, parents) == parents,
        graph matches Some(nodes) ==> (!nodes.dom().contains(oid) || nodes[oid].parents@
            != parents) ==> parent_visits(graph, oid, parents) == parents,
        parent_visits(graph, oid, parents).to_multiset() == parents.to_multiset(),
        graph matches Some(nodes) ==> (nodes.dom().contains(oid) && nodes[oid].parents@
            == parents) ==> forall|i: int, j: int|
            0 <= i < j < parent_visits(graph, oid, parents).len() ==> {
                let (a, b) = (
                    #[trigger] parent_visits(graph, oid, parents)[i],
                    #[trigger] parent_visits(graph, oid, parents)[j],
                );
                &&& nodes.dom().contains(b) ==> nodes.dom().contains(a) && nodes[a].generation
                    >= nodes[b].generation
                &&& nodes.dom().contains(a) == nodes.dom().contains(b) && (nodes.dom().contains(a)
                    ==> nodes[a].generation == nodes[b].generation) ==> !b.before(a)
            },
{
    if let Some(nodes) = graph {
        graph_keeps_every_parent(nodes, parents);
        graph_order_is_sorted(nodes, parents);
        if parents_agree(nodes, oid, parents) {
            let visits = ordered_parents(nodes, parents);
            assert forall|i: int, j: int| 0 <= i < j < visits.len() implies ({
                let (a, b) = (#[trigger] visits[i], #[trigger] visits[j]);
                &&& nodes.dom().contains(b) ==> nodes.dom().contains(a) && nodes[a].generation
                    >= nodes[b].generation
                &&& nodes.dom().contains(a) == nodes.dom().contains(b) && (nodes.dom().contains(a)
                    ==> nodes[a].generation == nodes[b].generation) ==> !b.before(a)
            }) by {
                assert(!visits_before(nodes, visits[j], visits[i]));
            }
        }
    }
}

proof fn lemma_place_sorts(
    graph: Map<ObjectId, GraphNode>,
    ordered: Seq<ObjectId>,
    parent: ObjectId,
)
    requires
        forall|i: int, j: int|
            0 <= i < j < ordered.len() ==> !visits_before(
                graph,
                #[trigger] ordered[j],
                #[trigger] ordered[i],
            ),
    ensures
        forall|i: int, j: int|
            0 <= i < j < place_parent(graph, ordered, parent).len() ==> !visits_before(
                graph,
                #[trigger] place_parent(graph, ordered, parent)[j],
                #[trigger] place_parent(graph, ordered, parent)[i],
            ),
        forall|i: int|
            0 <= i < place_parent(graph, ordered, parent).len() ==> (#[trigger] place_parent(
                graph,
                ordered,
                parent,
            )[i]) == parent || ordered.contains(place_parent(graph, ordered, parent)[i]),
    decreases ordered.len(),
{
    let placed = place_parent(graph, ordered, parent);
    if ordered.len() > 0 && visits_before(graph, parent, ordered.last()) {
        let rest = ordered.drop_last();
        let inner = place_parent(graph, rest, parent);
        lemma_place_sorts(graph, rest, parent);
        assert forall|i: int| 0 <= i < placed.len() implies (#[trigger] placed[i]) == parent
            || ordered.contains(placed[i]) by {
            if i < inner.len() {
                if inner[i] != parent {
                    let k = choose|k: int| 0 <= k < rest.len() && rest[k] == inner[i];
                    assert(ordered[k] == inner[i]);
                }
            } else {
                assert(ordered[ordered.len() - 1] == placed[i]);
            }
        }
        assert forall|i: int, j: int| 0 <= i < j < placed.len() implies !visits_before(
            graph,
            #[trigger] placed[j],
            #[trigger] placed[i],
        ) by {
            if j == placed.len() - 1 {
                if inner[i] != parent {
                    let k = choose|k: int| 0 <= k < rest.len() && rest[k] == inner[i];
                    assert(ordered[k] == inner[i]);
                    assert(!visits_before(graph, ordered[ordered.len() - 1], ordered[k]));
                }
            }
        }
    } else {
        assert forall|i: int| 0 <= i < placed.len() implies (#[trigger] placed[i]) == parent
            || ordered.contains(placed[i]) by {
            if i < ordered.len() {
                assert(ordered[i] == placed[i]);
            }
        }
        assert forall|i: int, j: int| 0 <= i < j < placed.len() implies !visits_before(
            graph,
            #[trigger] placed[j],
            #[trigger] placed[i],
        ) by {
            if j == placed.len() - 1 {
                if i < ordered.len() - 1 {
                    assert(!visits_before(graph, ordered[ordered.len() - 1], ordered[i]));
                }
            }
        }
    }
}

proof fn lemma_place_at(
    graph: Map<ObjectId, GraphNode>,
    ordered: Seq<ObjectId>,
    parent: ObjectId,
    at: int,
)
    requires
        0 <= at <= ordered.len(),
        forall|k: int| at <= k < ordered.len() ==> visits_before(graph, parent, #[trigger] ordered[k]),
        at > 0 ==> !visits_before(graph, parent, ordered[at - 1]),
    ensures
        place_parent(graph, ordered, parent) == ordered.insert(at, parent),
    decreases ordered.len(),
{
    if ordered.len() > at {
        let rest = ordered.drop_last();
        assert forall|k: int| at <= k < rest.len() implies visits_before(
            graph,
            parent,
            #[trigger] rest[k],
        ) by {
            assert(rest[k] == ordered[k]);
        }
        lemma_place_at(graph, rest, parent, at);
        assert(visits_before(graph, parent, ordered[ordered.len() - 1]));
    }
    assert(place_parent(graph, ordered, parent) =~= ordered.insert(at, parent));
}

impl CommitGraphIndex {
    pub closed spec fn wf(self) -> bool {
        self.nodes.wf()
    }

    /// A graph without commits.
    pub fn new() -> (result: CommitGraphIndex)
        ensures
            result.wf(),
            result@ == Map::<ObjectId, GraphNode>::empty(),
    {
        CommitGraphIndex { nodes: IdMap::new() }
    }

    /// Record one commit; the first record of a commit stands.
    pub fn record(&mut self, oid: ObjectId, node: GraphNode) -> (added: bool)
        requires
            old(self).wf(),
        ensures
            final(self).wf(),
            added == !old(self)@.dom().contains(oid),
            final(self)@ == (if added {
                old(self)@.insert(oid, node)
            } else {
                old(self)@
            }),
    {
        self.nodes.insert(oid, node)
    }

    /// Whether the graph records exactly these parents for a commit.
    pub fn parents_match(&self, oid: ObjectId, parents: &[ObjectId]) -> (result: bool)
        requires
            self.wf(),
        ensures
            result == parents_agree(self@, oid, parents@),
    {
        match self.nodes.get(&oid) {
            Some(node) => same_oids(node.parents.as_slice(), parents),
            None => false,
        }
    }

    /// The corrected generation of a commit.
    pub fn generation(&self, oid: &ObjectId) -> (result: Option<u64>)
        requires
            self.wf(),
        ensures
            match result {
                Some(generation) => self@.dom().contains(*oid) && self@[*oid].generation
                    == generation,
                None => !self@.dom().contains(*oid),
            },
    {
        match self.nodes.get(oid) {
            Some(node) => Some(node.generation),
            None => None,
        }
    }

    fn is_visited_before(&self, left: &ObjectId, right: &ObjectId) -> (result: bool)
        requires
            self.wf(),
        ensures
            result == visits_before(self@, *left, *right),
    {
        match (self.generation(left), self.generation(right)) {
            (Some(l), Some(r)) => l > r || (l == r && left.is_before(right)),
            (Some(_), None) => true,
            (None, Some(_)) => false,
            (None, None) => left.is_before(right),
        }
    }

    fn order_parents(&self, parents: &[ObjectId]) -> (result: Result<Vec<ObjectId>, Error>)
        requires
            self.wf(),
        ensures
            match result {
                Ok(ordered) => ordered@ == ordered_parents(self@, parents@),
                Err(error) => crate::memory::refused_exactly::<ObjectId>(
                    parents@.len() as usize,
                    error,
                ),
            },
    {
        let mut ordered: Vec<ObjectId> = Vec::new();
        reserve_exact(&mut ordered, parents.len())?;
        let mut at: usize = 0;
        assert(parents@.subrange(0, 0) =~= Seq::empty());
        while at < parents.len()
            invariant
                self.wf(),
                at <= parents@.len(),
                ordered@ == ordered_parents(self@, parents@.subrange(0, at as int)),
                ordered@.len() == at,
            decreases parents@.len() - at,
        {
            let parent = parents[at];
            let mut place: usize = ordered.len();
            while place > 0 && self.is_visited_before(&parent, &ordered[place - 1])
                invariant
                    self.wf(),
                    place <= ordered@.len(),
                    forall|k: int|
                        place <= k < ordered@.len() ==> visits_before(
                            self@,
                            parent,
                            #[trigger] ordered@[k],
                        ),
                decreases place,
            {
                place -= 1;
            }
            proof {
                lemma_place_at(self@, ordered@, parent, place as int);
                assert(parents@.subrange(0, at + 1).drop_last() =~= parents@.subrange(
                    0,
                    at as int,
                ));
            }
            ordered.insert(place, parent);
            at += 1;
        }
        assert(parents@.subrange(0, at as int) =~= parents@);
        Ok(ordered)
    }
}

/// Whether a commit can be reached in exactly so many steps through the parents
/// that a graph records.
pub open spec fn recorded_in(
    graph: Map<ObjectId, GraphNode>,
    roots: Seq<ObjectId>,
    target: ObjectId,
    steps: nat,
) -> bool
    decreases steps,
{
    if steps == 0 {
        roots.contains(target)
    } else {
        exists|child: ObjectId|
            recorded_in(graph, roots, child, (steps - 1) as nat) && #[trigger] records(
                graph,
                child,
                target,
            )
    }
}

/// Whether a graph records one commit as a parent of another.
pub open spec fn records(graph: Map<ObjectId, GraphNode>, child: ObjectId, parent: ObjectId) -> bool {
    graph.dom().contains(child) && graph[child].parents@.contains(parent)
}

/// Whether a commit can be reached from some roots through the parents that a
/// graph records.
pub open spec fn recorded_reachable(
    graph: Map<ObjectId, GraphNode>,
    roots: Seq<ObjectId>,
    target: ObjectId,
) -> bool {
    exists|steps: nat| #[trigger] recorded_in(graph, roots, target, steps)
}

proof fn lemma_recorded_parent(
    graph: Map<ObjectId, GraphNode>,
    roots: Seq<ObjectId>,
    child: ObjectId,
    parent: ObjectId,
)
    requires
        recorded_reachable(graph, roots, child),
        records(graph, child, parent),
    ensures
        recorded_reachable(graph, roots, parent),
{
    let steps = choose|steps: nat| #[trigger] recorded_in(graph, roots, child, steps);
    assert(recorded_in(graph, roots, child, ((steps + 1) - 1) as nat));
    assert(recorded_in(graph, roots, parent, steps + 1));
}

/// What a graph records as reachable is the roots, the parents that it records for what
/// is reachable, and nothing that a set can do without that holds the roots and every
/// parent recorded for its own commits.
pub proof fn what_a_graph_can_reach(
    graph: Map<ObjectId, GraphNode>,
    roots: Seq<ObjectId>,
    all: Set<ObjectId>,
)
    ensures
        forall|i: int|
            0 <= i < roots.len() ==> recorded_reachable(graph, roots, #[trigger] roots[i]),
        forall|child: ObjectId, k: int|
            recorded_reachable(graph, roots, child) && graph.dom().contains(child) && 0 <= k
                < graph[child].parents@.len() ==> recorded_reachable(
                graph,
                roots,
                #[trigger] graph[child].parents@[k],
            ),
        (forall|i: int| 0 <= i < roots.len() ==> all.contains(#[trigger] roots[i])) && (forall|
            child: ObjectId,
            k: int,
        |
            all.contains(child) && graph.dom().contains(child) && 0 <= k
                < graph[child].parents@.len() ==> all.contains(
                #[trigger] graph[child].parents@[k],
            )) ==> forall|target: ObjectId| #[trigger]
            recorded_reachable(graph, roots, target) ==> all.contains(target),
{
    assert forall|i: int| 0 <= i < roots.len() implies recorded_reachable(
        graph,
        roots,
        #[trigger] roots[i],
    ) by {
        assert(roots.contains(roots[i]));
        assert(recorded_in(graph, roots, roots[i], 0));
    }
    assert forall|child: ObjectId, k: int|
        recorded_reachable(graph, roots, child) && graph.dom().contains(child) && 0 <= k
            < graph[child].parents@.len() implies recorded_reachable(
        graph,
        roots,
        #[trigger] graph[child].parents@[k],
    ) by {
        assert(graph[child].parents@.contains(graph[child].parents@[k]));
        lemma_recorded_parent(graph, roots, child, graph[child].parents@[k]);
    }
    if (forall|i: int| 0 <= i < roots.len() ==> all.contains(#[trigger] roots[i])) && (forall|
        child: ObjectId,
        k: int,
    |
        all.contains(child) && graph.dom().contains(child) && 0 <= k < graph[child].parents@.len()
            ==> all.contains(#[trigger] graph[child].parents@[k])) {
        assert forall|target: ObjectId| #[trigger]
            recorded_reachable(graph, roots, target) implies all.contains(target) by {
            let steps = choose|steps: nat| #[trigger] recorded_in(graph, roots, target, steps);
            lemma_recorded_within(graph, roots, all, target, steps);
        }
    }
}

proof fn lemma_recorded_within(
    graph: Map<ObjectId, GraphNode>,
    roots: Seq<ObjectId>,
    all: Set<ObjectId>,
    target: ObjectId,
    steps: nat,
)
    requires
        forall|i: int| 0 <= i < roots.len() ==> all.contains(#[trigger] roots[i]),
        forall|child: ObjectId, k: int|
            all.contains(child) && graph.dom().contains(child) && 0 <= k
                < graph[child].parents@.len() ==> all.contains(#[trigger] graph[child].parents@[k]),
        recorded_in(graph, roots, target, steps),
    ensures
        all.contains(target),
    decreases steps,
{
    if steps == 0 {
        let i = choose|i: int| 0 <= i < roots.len() && roots[i] == target;
        assert(all.contains(roots[i]));
    } else {
        let child = choose|child: ObjectId|
            recorded_in(graph, roots, child, (steps - 1) as nat) && #[trigger] records(
                graph,
                child,
                target,
            );
        lemma_recorded_within(graph, roots, all, child, (steps - 1) as nat);
        let parents = graph[child].parents@;
        let k = choose|k: int| 0 <= k < parents.len() && parents[k] == target;
        assert(all.contains(graph[child].parents@[k]));
    }
}

proof fn lemma_recorded_closed(
    graph: Map<ObjectId, GraphNode>,
    roots: Seq<ObjectId>,
    all: Set<ObjectId>,
    target: ObjectId,
    steps: nat,
)
    requires
        forall|oid: ObjectId| #[trigger] roots.contains(oid) ==> all.contains(oid),
        forall|child: ObjectId, parent: ObjectId|
            all.contains(child) && #[trigger] records(graph, child, parent) ==> all.contains(
                parent,
            ),
        recorded_in(graph, roots, target, steps),
    ensures
        all.contains(target),
    decreases steps,
{
    if steps > 0 {
        let child = choose|child: ObjectId|
            recorded_in(graph, roots, child, (steps - 1) as nat) && #[trigger] records(
                graph,
                child,
                target,
            );
        lemma_recorded_closed(graph, roots, all, child, (steps - 1) as nat);
    }
}

/// What a search through a graph has found and has still to visit.
spec fn search_holds(
    graph: Map<ObjectId, GraphNode>,
    roots: Seq<ObjectId>,
    seen: Set<ObjectId>,
    stack: Seq<ObjectId>,
) -> bool {
    &&& forall|oid: ObjectId| #[trigger]
        stack.contains(oid) ==> recorded_reachable(graph, roots, oid)
    &&& forall|oid: ObjectId| #[trigger]
        seen.contains(oid) ==> recorded_reachable(graph, roots, oid)
    &&& forall|oid: ObjectId| #[trigger]
        roots.contains(oid) ==> seen.contains(oid) || stack.contains(oid)
    &&& forall|child: ObjectId, parent: ObjectId|
        seen.contains(child) && #[trigger] records(graph, child, parent) ==> seen.contains(parent)
            || stack.contains(parent)
}

proof fn lemma_search_step(
    graph: Map<ObjectId, GraphNode>,
    roots: Seq<ObjectId>,
    seen: Set<ObjectId>,
    stack: Seq<ObjectId>,
)
    requires
        search_holds(graph, roots, seen, stack),
        stack.len() > 0,
    ensures
        seen.contains(stack.last()) ==> search_holds(graph, roots, seen, stack.drop_last()),
        !graph.dom().contains(stack.last()) ==> search_holds(
            graph,
            roots,
            seen.insert(stack.last()),
            stack.drop_last(),
        ),
        graph.dom().contains(stack.last()) ==> search_holds(
            graph,
            roots,
            seen.insert(stack.last()),
            stack.drop_last() + graph[stack.last()].parents@,
        ),
{
    let top = stack.last();
    let rest = stack.drop_last();
    assert(stack[stack.len() - 1] == top);
    assert(stack.contains(top));
    assert forall|oid: ObjectId| #[trigger] stack.contains(oid) implies oid == top
        || rest.contains(oid) by {
        let i = choose|i: int| 0 <= i < stack.len() && stack[i] == oid;
        if i < rest.len() {
            assert(rest[i] == oid);
        }
    }
    assert forall|oid: ObjectId| #[trigger] rest.contains(oid) implies stack.contains(oid) by {
        let i = choose|i: int| 0 <= i < rest.len() && rest[i] == oid;
        assert(stack[i] == oid);
    }
    if graph.dom().contains(top) {
        let parents = graph[top].parents@;
        let next = rest + parents;
        assert forall|oid: ObjectId| #[trigger] next.contains(oid) <==> rest.contains(oid)
            || parents.contains(oid) by {
            if rest.contains(oid) {
                let i = choose|i: int| 0 <= i < rest.len() && rest[i] == oid;
                assert(next[i] == oid);
            }
            if parents.contains(oid) {
                let i = choose|i: int| 0 <= i < parents.len() && parents[i] == oid;
                assert(next[rest.len() + i] == oid);
            }
            if next.contains(oid) {
                let i = choose|i: int| 0 <= i < next.len() && next[i] == oid;
                if i < rest.len() {
                    assert(rest[i] == oid);
                } else {
                    assert(parents[i - rest.len()] == oid);
                }
            }
        }
        assert forall|oid: ObjectId| #[trigger] next.contains(oid) implies recorded_reachable(
            graph,
            roots,
            oid,
        ) by {
            if parents.contains(oid) {
                assert(records(graph, top, oid));
                lemma_recorded_parent(graph, roots, top, oid);
            }
        }
        assert forall|child: ObjectId, parent: ObjectId|
            seen.insert(top).contains(child) && #[trigger] records(graph, child, parent) implies
            seen.insert(top).contains(parent) || next.contains(parent) by {
            if child == top {
                assert(parents.contains(parent));
            }
        }
    }
}

impl CommitGraphIndex {
    /// Which of some commits can be reached from some roots through the parents
    /// that the graph records.
    pub fn reachable_from_roots<W: Cancellation>(
        &self,
        candidates: &[ObjectId],
        roots: &[ObjectId],
        cancellation: &W,
    ) -> (result: Result<Vec<bool>, Error>)
        requires
            self.wf(),
        ensures
            match result {
                Ok(reached) => {
                    &&& reached@.len() == candidates@.len()
                    &&& forall|i: int|
                        0 <= i < candidates@.len() ==> #[trigger] reached@[i] == recorded_reachable(
                            self@,
                            roots@,
                            candidates@[i],
                        )
                },
                Err(error) => crate::cancel::stopped_by(cancellation, error) && roots@.len() > 0,
            },
            result is Ok && roots@.len() > 0 ==> crate::cancel::passed_by(cancellation),
    {
        let mut stack: Vec<ObjectId> = copy_oids(roots);
        let mut seen: IdMap<ObjectId, ()> = IdMap::new();
        let mut steps: usize = 0;
        proof {
            self.nodes.contents_are_finite();
            assert forall|oid: ObjectId| #[trigger] stack@.contains(oid) implies recorded_reachable(
                self@,
                roots@,
                oid,
            ) by {
                assert(recorded_in(self@, roots@, oid, 0));
            }
        }
        while stack.len() > 0
            invariant
                self.wf(),
                stack@.len() > 0 ==> roots@.len() > 0,
                crate::cancel::passed_by(cancellation) || (steps == 0 && stack@ == roots@),
                self@.dom().finite(),
                seen.wf(),
                search_holds(self@, roots@, seen.contents().dom(), stack@),
            decreases self@.dom().difference(seen.contents().dom()).len(), stack@.len(),
        {
            if steps % CPU_CANCELLATION_INTERVAL == 0 {
                check_cpu_cancellation(cancellation)?;
            }
            steps = steps.wrapping_add(1);
            let ghost before = stack@;
            let ghost seen_before = seen.contents().dom();
            proof {
                lemma_search_step(self@, roots@, seen_before, before);
            }
            if let Some(oid) = stack.pop() {
                if seen.insert(oid, ()) {
                    proof {
                        assert(seen.contents().dom() =~= seen_before.insert(oid));
                        let left = self@.dom().difference(seen_before);
                        let fewer = self@.dom().difference(seen.contents().dom());
                        assert(fewer =~= left.remove(oid));
                        assert(left.finite());
                    }
                    if let Some(node) = self.nodes.get(&oid) {
                        append_oids(&mut stack, node.parents.as_slice());
                        assert(stack@ =~= before.drop_last() + self@[oid].parents@);
                    }
                }
            }
        }
        proof {
            let all = seen.contents().dom();
            assert forall|oid: ObjectId| recorded_reachable(self@, roots@, oid) implies
                #[trigger] all.contains(oid) by {
                let steps = choose|steps: nat| #[trigger] recorded_in(self@, roots@, oid, steps);
                assert forall|o: ObjectId| #[trigger] roots@.contains(o) implies all.contains(
                    o,
                ) by {
                    assert(!stack@.contains(o));
                }
                assert forall|child: ObjectId, parent: ObjectId|
                    all.contains(child) && #[trigger] records(self@, child, parent) implies
                    all.contains(parent) by {
                    assert(!stack@.contains(parent));
                }
                lemma_recorded_closed(self@, roots@, all, oid, steps);
            }
        }
        let mut reached: Vec<bool> = Vec::new();
        let mut at: usize = 0;
        while at < candidates.len()
            invariant
                at <= candidates@.len(),
                seen.wf(),
                forall|oid: ObjectId| #[trigger]
                    seen.contents().dom().contains(oid) <==> recorded_reachable(self@, roots@, oid),
                reached@.len() == at,
                forall|i: int|
                    0 <= i < at ==> #[trigger] reached@[i] == recorded_reachable(
                        self@,
                        roots@,
                        candidates@[i],
                    ),
            decreases candidates@.len() - at,
        {
            reached.push(seen.contains(&candidates[at]));
            at += 1;
        }
        Ok(reached)
    }
}

fn append_oids(list: &mut Vec<ObjectId>, oids: &[ObjectId])
    ensures
        final(list)@ == old(list)@ + oids@,
{
    let ghost before = list@;
    let mut at: usize = 0;
    assert(list@ =~= before + oids@.subrange(0, 0));
    while at < oids.len()
        invariant
            at <= oids@.len(),
            list@ == before + oids@.subrange(0, at as int),
        decreases oids@.len() - at,
    {
        list.push(oids[at]);
        at += 1;
        assert(list@ =~= before + oids@.subrange(0, at as int));
    }
    assert(oids@.subrange(0, at as int) =~= oids@);
}

/// The graph that a traversal consults, if any.
pub open spec fn graph_view(graph: Option<&CommitGraphIndex>) -> Option<Map<ObjectId, GraphNode>> {
    match graph {
        Some(index) => Some(index@),
        None => None,
    }
}

pub open spec fn graph_wf(graph: Option<&CommitGraphIndex>) -> bool {
    match graph {
        Some(index) => index.wf(),
        None => true,
    }
}

/// All parents of a commit in the order in which they are visited: as a graph
/// orders them where it records exactly these parents, else as the commit does.
pub open spec fn parent_visits(
    graph: Option<Map<ObjectId, GraphNode>>,
    oid: ObjectId,
    parents: Seq<ObjectId>,
) -> Seq<ObjectId> {
    match graph {
        Some(nodes) => if parents_agree(nodes, oid, parents) {
            ordered_parents(nodes, parents)
        } else {
            parents
        },
        None => parents,
    }
}

/// Why the parents of a commit could not be queued: there was no room for them behind
/// what is queued, or none to order those that a graph records. A commit without
/// parents needs no room.
pub open spec fn parents_refused(
    queued: Seq<ObjectId>,
    graph: Option<Map<ObjectId, GraphNode>>,
    commit: Commit,
    error: Error,
) -> bool {
    let count = commit.parents@.len() as usize;
    ||| crate::memory::is_reservation(queued, count, Err::<(), Error>(error))
    ||| {
        &&& crate::memory::is_reservation(queued, count, Ok::<(), Error>(()))
        &&& graph matches Some(nodes) && parents_agree(nodes, commit.oid, commit.parents@)
        &&& crate::memory::refused_exactly::<ObjectId>(count, error)
    }
}

/// Queue all parents of a commit so that the first to visit is taken first. Only
/// a lack of memory prevents it, and then nothing is queued.
pub fn queue_all_parents(
    pending: &mut Vec<ObjectId>,
    commit: &Commit,
    commit_graph: Option<&CommitGraphIndex>,
) -> (result: Result<(), Error>)
    requires
        graph_wf(commit_graph),
    ensures
        match result {
            Ok(()) => final(pending)@ == old(pending)@ + parent_visits(
                graph_view(commit_graph),
                commit.oid,
                commit.parents@,
            ).reverse() && crate::memory::is_reservation(
                old(pending)@,
                commit.parents@.len() as usize,
                Ok::<(), Error>(()),
            ),
            Err(error) => {
                &&& final(pending)@ == old(pending)@
                &&& parents_refused(old(pending)@, graph_view(commit_graph), *commit, error)
            },
        },
{
    reserve(pending, commit.parents.len())?;
    match commit_graph {
        Some(graph) => {
            if graph.parents_match(commit.oid, commit.parents.as_slice()) {
                let ordered = graph.order_parents(commit.parents.as_slice())?;
                push_reversed(pending, ordered.as_slice());
                return Ok(());
            }
        },
        None => {},
    }
    push_reversed(pending, commit.parents.as_slice());
    Ok(())
}

fn push_reversed(pending: &mut Vec<ObjectId>, oids: &[ObjectId])
    ensures
        final(pending)@ == old(pending)@ + oids@.reverse(),
{
    let ghost before = pending@;
    let mut left: usize = oids.len();
    assert(pending@ =~= before + oids@.reverse().subrange(0, 0));
    while left > 0
        invariant
            left <= oids@.len(),
            pending@ == before + oids@.reverse().subrange(0, oids@.len() - left),
        decreases left,
    {
        left -= 1;
        pending.push(oids[left]);
        assert(pending@ =~= before + oids@.reverse().subrange(0, oids@.len() - left));
    }
    assert(oids@.reverse().subrange(0, oids@.len() as int) =~= oids@.reverse());
}

} // verus!
