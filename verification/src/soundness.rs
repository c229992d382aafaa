//! What holds of every trace: it visits exactly the nodes that the root
//! reaches, each once, and records each dependency of each of them once.

use crate::reach::{
    closed_at, lemma_closed_holds_reachable, lemma_occurs_iff_counted, lemma_reaches_dependency,
    lemma_reaches_itself, occurrences, reachable, reachable_set,
};
use crate::store::{all_below, well_formed, NodeIndex, NodeModel};
use crate::trace::{expand, nothing, traced, visit, DependencyEdge, Trace};
use crate::visited::lemma_room_for_missing;
use vstd::prelude::*;

verus! {

/// The visited nodes are distinct nodes of the store that `root` reaches.
spec fn sound(store: Seq<NodeModel>, root: NodeIndex, trace: Trace) -> bool {
    &&& trace.visited.no_duplicates()
    &&& all_below(trace.visited, store.len() as int)
    &&& forall|i: int|
        0 <= i < trace.visited.len() ==> reachable(store, root, #[trigger] trace.visited[i])
}

/// `node` was visited between `before` and `after`.
spec fn fresh(before: Trace, after: Trace, node: NodeIndex) -> bool {
    after.visited.contains(node) && !before.visited.contains(node)
}

/// How often `edge` is recorded while the nodes visited between `before`
/// and `after` are worked through: once for each place where its
/// destination names its source, if the destination is among them.
spec fn share(store: Seq<NodeModel>, before: Trace, after: Trace, edge: DependencyEdge) -> int {
    if fresh(before, after, edge.destination) {
        occurrences(store[edge.destination as int].dependencies, edge.source) as int
    } else {
        0
    }
}

/// How often `edge` is recorded while the dependencies of `node` from
/// `position` on are worked through.
spec fn remainder(
    store: Seq<NodeModel>,
    node: NodeIndex,
    position: int,
    edge: DependencyEdge,
) -> int {
    if edge.destination == node {
        occurrences(store[node as int].dependencies, edge.source) - occurrences(
            store[node as int].dependencies.take(position),
            edge.source,
        )
    } else {
        0
    }
}

/// `after` continues `before`: it is sound, nothing visited is lost or
/// reordered, and what was visited in between has all its dependencies
/// visited.
spec fn continues(
    store: Seq<NodeModel>,
    root: NodeIndex,
    before: Trace,
    after: Trace,
) -> bool {
    &&& sound(store, root, after)
    &&& before.visited.is_prefix_of(after.visited)
    &&& forall|node: NodeIndex| #[trigger]
        fresh(before, after, node) ==> closed_at(store, after.visited, node)
}

proof fn lemma_prefix_keeps_members(shorter: Seq<NodeIndex>, longer: Seq<NodeIndex>, node: NodeIndex)
    requires
        shorter.is_prefix_of(longer),
        shorter.contains(node),
    ensures
        longer.contains(node),
{
    let at = shorter.index_of(node);
    assert(longer[at] == node);
}

proof fn lemma_closed_grows(
    store: Seq<NodeModel>,
    shorter: Seq<NodeIndex>,
    longer: Seq<NodeIndex>,
    node: NodeIndex,
)
    requires
        shorter.is_prefix_of(longer),
        closed_at(store, shorter, node),
    ensures
        closed_at(store, longer, node),
{
    assert forall|j: int| 0 <= j < store[node as int].dependencies.len() implies longer.contains(
        #[trigger] store[node as int].dependencies[j],
    ) by {
        lemma_prefix_keeps_members(shorter, longer, store[node as int].dependencies[j]);
    }
}

/// Working through the dependencies of a visited node from `position` on.
proof fn lemma_expand(
    store: Seq<NodeModel>,
    root: NodeIndex,
    node: NodeIndex,
    position: nat,
    budget: nat,
    so_far: Trace,
)
    requires
        well_formed(store),
        node < store.len(),
        position <= store[node as int].dependencies.len(),
        sound(store, root, so_far),
        so_far.visited.contains(node),
        budget + so_far.visited.len() >= store.len(),
    ensures
        ({
            let after = expand(store, node, position, budget, so_far);
            &&& continues(store, root, so_far, after)
            &&& forall|j: int|
                position <= j < store[node as int].dependencies.len() ==> after.visited.contains(
                    #[trigger] store[node as int].dependencies[j],
                )
            &&& forall|edge: DependencyEdge| #[trigger]
                occurrences(after.edges, edge) == occurrences(so_far.edges, edge) + share(
                    store,
                    so_far,
                    after,
                    edge,
                ) + remainder(store, node, position as int, edge)
        }),
    decreases budget, 1nat, store[node as int].dependencies.len() - position,
{
    let dependencies = store[node as int].dependencies;
    let after = expand(store, node, position, budget, so_far);
    if position >= dependencies.len() {
        assert(dependencies.take(position as int) =~= dependencies);
    } else {
        let dependency = dependencies[position as int];
        let added = DependencyEdge { source: dependency, destination: node };
        let recorded = Trace { visited: so_far.visited, edges: so_far.edges.push(added) };
        assert(recorded.edges.drop_last() =~= so_far.edges);
        assert(dependencies.take(position as int + 1).drop_last() =~= dependencies.take(position as int));
        assert(dependencies.take(position as int + 1).last() == dependency);
        assert(dependency < store.len());
        let at = so_far.visited.index_of(node);
        assert(reachable(store, root, so_far.visited[at]));
        lemma_reaches_dependency(store, root, node, position as int);
        let descended = if recorded.visited.contains(dependency) {
            recorded
        } else {
            visit(store, dependency, budget, recorded)
        };
        if !recorded.visited.contains(dependency) {
            lemma_visit(store, root, dependency, budget, recorded);
        }
        assert(continues(store, root, recorded, descended));
        assert(descended.visited.contains(dependency));
        lemma_prefix_keeps_members(so_far.visited, descended.visited, node);
        lemma_expand(store, root, node, position + 1, budget, descended);
        assert(after == expand(store, node, position + 1, budget, descended));
        assert(descended.visited.is_prefix_of(after.visited));
        assert forall|member: NodeIndex| #[trigger]
            fresh(so_far, after, member) implies closed_at(store, after.visited, member) by {
            if fresh(descended, after, member) {
            } else {
                assert(fresh(recorded, descended, member));
                lemma_closed_grows(store, descended.visited, after.visited, member);
            }
        }
        assert forall|j: int| position <= j < dependencies.len() implies after.visited.contains(
            #[trigger] dependencies[j],
        ) by {
            if j == position {
                lemma_prefix_keeps_members(descended.visited, after.visited, dependency);
            }
        }
        assert forall|edge: DependencyEdge| #[trigger]
            occurrences(after.edges, edge) == occurrences(so_far.edges, edge) + share(
                store,
                so_far,
                after,
                edge,
            ) + remainder(store, node, position as int, edge) by {
            assert(occurrences(after.edges, edge) == occurrences(descended.edges, edge) + share(
                store,
                descended,
                after,
                edge,
            ) + remainder(store, node, position as int + 1, edge));
            assert(occurrences(descended.edges, edge) == occurrences(recorded.edges, edge) + share(
                store,
                recorded,
                descended,
                edge,
            ));
            if descended.visited.contains(edge.destination) {
                lemma_prefix_keeps_members(descended.visited, after.visited, edge.destination);
            }
            if edge.destination == node {
                assert(!fresh(so_far, after, node));
            }
        }
    }
}

/// Visiting a node that `root` reaches and that was not visited before.
proof fn lemma_visit(
    store: Seq<NodeModel>,
    root: NodeIndex,
    node: NodeIndex,
    budget: nat,
    so_far: Trace,
)
    requires
        well_formed(store),
        node < store.len(),
        sound(store, root, so_far),
        !so_far.visited.contains(node),
        reachable(store, root, node),
        budget + so_far.visited.len() >= store.len(),
    ensures
        ({
            let after = visit(store, node, budget, so_far);
            &&& continues(store, root, so_far, after)
            &&& after.visited.len() > so_far.visited.len()
            &&& after.visited[so_far.visited.len() as int] == node
            &&& forall|edge: DependencyEdge| #[trigger]
                occurrences(after.edges, edge) == occurrences(so_far.edges, edge) + share(
                    store,
                    so_far,
                    after,
                    edge,
                )
        }),
    decreases budget, 0nat, 0nat,
{
    lemma_room_for_missing(so_far.visited, store.len(), node);
    let entered = Trace { visited: so_far.visited.push(node), edges: so_far.edges };
    let after = visit(store, node, budget, so_far);
    assert(after == expand(store, node, 0, (budget - 1) as nat, entered));
    assert(entered.visited[so_far.visited.len() as int] == node);
    assert forall|a: int, b: int|
        0 <= a < entered.visited.len() && 0 <= b < entered.visited.len() && a != b implies entered.visited[a]
        != entered.visited[b] by {
        if a < so_far.visited.len() {
            assert(so_far.visited.contains(entered.visited[a]));
        }
        if b < so_far.visited.len() {
            assert(so_far.visited.contains(entered.visited[b]));
        }
    }
    assert forall|i: int| 0 <= i < entered.visited.len() implies reachable(
        store,
        root,
        #[trigger] entered.visited[i],
    ) by {
        if i < so_far.visited.len() {
            assert(entered.visited[i] == so_far.visited[i]);
        }
    }
    assert(sound(store, root, entered));
    lemma_expand(store, root, node, 0, (budget - 1) as nat, entered);
    lemma_prefix_keeps_members(entered.visited, after.visited, node);
    assert(after.visited[so_far.visited.len() as int] == node);
    assert forall|member: NodeIndex| #[trigger]
        fresh(so_far, after, member) implies closed_at(store, after.visited, member) by {
        if member == node {
        } else {
            if entered.visited.contains(member) {
                let at = entered.visited.index_of(member);
                assert(so_far.visited[at] == member);
            }
            assert(fresh(entered, after, member));
        }
    }
    assert forall|edge: DependencyEdge| #[trigger]
        occurrences(after.edges, edge) == occurrences(so_far.edges, edge) + share(
            store,
            so_far,
            after,
            edge,
        ) by {
        assert(occurrences(after.edges, edge) == occurrences(entered.edges, edge) + share(
            store,
            entered,
            after,
            edge,
        ) + remainder(store, node, 0, edge));
        assert(store[node as int].dependencies.take(0) =~= Seq::<NodeIndex>::empty());
        let target = edge.destination;
        if target != node {
            if entered.visited.contains(target) {
                let at = entered.visited.index_of(target);
                assert(so_far.visited[at] == target);
            }
            if so_far.visited.contains(target) {
                lemma_prefix_keeps_members(so_far.visited, entered.visited, target);
            }
        }
    }
}

/// Both ends of every edge are among `visited`.
pub open spec fn edges_within(visited: Seq<NodeIndex>, edges: Seq<DependencyEdge>) -> bool {
    forall|k: int|
        0 <= k < edges.len() ==> visited.contains((#[trigger] edges[k]).source) && visited.contains(
            edges[k].destination,
        )
}

/// Every edge is recorded once for each place where a visited node names
/// the edge's source as a dependency, and never otherwise.
pub open spec fn one_edge_per_reference(
    store: Seq<NodeModel>,
    visited: Seq<NodeIndex>,
    edges: Seq<DependencyEdge>,
) -> bool {
    forall|edge: DependencyEdge| #[trigger]
        occurrences(edges, edge) == if visited.contains(edge.destination) {
            occurrences(store[edge.destination as int].dependencies, edge.source)
        } else {
            0
        }
}

/// A trace visits exactly the nodes that its root reaches, the root
/// first and none twice, and records one edge per dependency of each.
pub proof fn lemma_traced(store: Seq<NodeModel>, root: NodeIndex)
    requires
        well_formed(store),
        root < store.len(),
    ensures
        traced(store, root).visited.no_duplicates(),
        all_below(traced(store, root).visited, store.len() as int),
        traced(store, root).visited.len() > 0,
        traced(store, root).visited[0] == root,
        traced(store, root).visited.to_set() == reachable_set(store, root),
        one_edge_per_reference(store, traced(store, root).visited, traced(store, root).edges),
        edges_within(traced(store, root).visited, traced(store, root).edges),
{
    let found = traced(store, root);
    lemma_reaches_itself(store, root);
    lemma_visit(store, root, root, store.len(), nothing());
    assert(found.visited.contains(root));
    assert forall|i: int| 0 <= i < found.visited.len() implies closed_at(
        store,
        found.visited,
        #[trigger] found.visited[i],
    ) by {
        assert(fresh(nothing(), found, found.visited[i]));
    }
    assert forall|node: NodeIndex| found.visited.to_set().contains(node) == reachable_set(
        store,
        root,
    ).contains(node) by {
        if found.visited.contains(node) {
            let at = found.visited.index_of(node);
            assert(reachable(store, root, found.visited[at]));
        }
        if reachable(store, root, node) {
            lemma_closed_holds_reachable(store, root, found.visited, node);
        }
    }
    assert(found.visited.to_set() =~= reachable_set(store, root));
    assert forall|edge: DependencyEdge| #[trigger]
        occurrences(found.edges, edge) == if found.visited.contains(edge.destination) {
            occurrences(store[edge.destination as int].dependencies, edge.source)
        } else {
            0
        } by {
        assert(occurrences(found.edges, edge) == occurrences(nothing().edges, edge) + share(
            store,
            nothing(),
            found,
            edge,
        ));
    }
    assert forall|k: int| 0 <= k < found.edges.len() implies found.visited.contains(
        (#[trigger] found.edges[k]).source,
    ) && found.visited.contains(found.edges[k].destination) by {
        let edge = found.edges[k];
        assert(found.edges.contains(edge));
        lemma_occurs_iff_counted(found.edges, edge);
        assert(occurrences(found.edges, edge) > 0);
        let dependencies = store[edge.destination as int].dependencies;
        lemma_occurs_iff_counted(dependencies, edge.source);
        let at = found.visited.index_of(edge.destination);
        assert(closed_at(store, found.visited, found.visited[at]));
        let j = dependencies.index_of(edge.source);
        assert(found.visited.contains(dependencies[j]));
    }
}

/// Two traces of one store from one root are the same trace: the same
/// nodes, visited in the same order, and the same edges.
pub proof fn lemma_trace_repeats(store: Seq<NodeModel>, root: NodeIndex, first: Trace, second: Trace)
    requires
        first == traced(store, root),
        second == traced(store, root),
    ensures
        first.visited.to_set() == second.visited.to_set(),
        first.visited == second.visited,
        first.edges == second.edges,
{
}

/// What occurs in a sequence without duplicates occurs there once.
pub proof fn lemma_distinct_occurs_once(items: Seq<NodeIndex>, item: NodeIndex)
    requires
        items.no_duplicates(),
        items.contains(item),
    ensures
        occurrences(items, item) == 1,
    decreases items.len(),
{
    let shorter = items.drop_last();
    lemma_occurs_iff_counted(shorter, item);
    if items.last() == item {
        if shorter.contains(item) {
            let at = shorter.index_of(item);
            assert(items[at] == items[items.len() - 1]);
        }
    } else {
        let at = items.index_of(item);
        assert(shorter[at] == item);
        lemma_distinct_occurs_once(shorter, item);
    }
}

/// A node that two different nodes reached from the root both depend on is
/// visited once, and the trace holds an edge from it to each of the two,
/// as often as that one names it.
pub proof fn lemma_shared_dependency(
    store: Seq<NodeModel>,
    root: NodeIndex,
    first: NodeIndex,
    second: NodeIndex,
    shared: NodeIndex,
)
    requires
        well_formed(store),
        root < store.len(),
        reachable(store, root, first),
        reachable(store, root, second),
        first != second,
        store[first as int].dependencies.contains(shared),
        store[second as int].dependencies.contains(shared),
    ensures
        occurrences(traced(store, root).visited, shared) == 1,
        occurrences(
            traced(store, root).edges,
            DependencyEdge { source: shared, destination: first },
        ) == occurrences(store[first as int].dependencies, shared) >= 1,
        occurrences(
            traced(store, root).edges,
            DependencyEdge { source: shared, destination: second },
        ) == occurrences(store[second as int].dependencies, shared) >= 1,
{
    let found = traced(store, root);
    lemma_traced(store, root);
    assert(reachable_set(store, root).contains(first));
    assert(reachable_set(store, root).contains(second));
    assert(found.visited.contains(first));
    assert(found.visited.contains(second));
    let to_first = DependencyEdge { source: shared, destination: first };
    let to_second = DependencyEdge { source: shared, destination: second };
    assert(occurrences(found.edges, to_first) == occurrences(
        store[first as int].dependencies,
        shared,
    ));
    assert(occurrences(found.edges, to_second) == occurrences(
        store[second as int].dependencies,
        shared,
    ));
    lemma_occurs_iff_counted(store[first as int].dependencies, shared);
    lemma_occurs_iff_counted(store[second as int].dependencies, shared);
    lemma_occurs_iff_counted(found.edges, to_first);
    let k = found.edges.index_of(to_first);
    assert(found.visited.contains(found.edges[k].source));
    lemma_distinct_occurs_once(found.visited, shared);
}

} // verus!
