//! The graph tracer: a depth-first walk from a root node along the
//! dependencies, which collects the nodes it reaches and one edge for every
//! dependency it follows.

use crate::reach::reachable_set;
use crate::soundness::{edges_within, lemma_traced, one_edge_per_reference};
use crate::store::{NodeIndex, NodeModel, NodeStore};
use crate::visited::{lemma_distinct_indices_bounded, lemma_room_for_missing, VisitedSet};
use vstd::prelude::*;

verus! {

/// "`source` feeds into `destination`".
#[derive(Debug, Clone, Copy, PartialEq, Eq, Structural)]
pub struct DependencyEdge {
    pub source: NodeIndex,
    pub destination: NodeIndex,
}

/// What a walk has collected: the nodes in the order they were first
/// visited, and the edges in the order they were recorded.
pub ghost struct Trace {
    pub visited: Seq<NodeIndex>,
    pub edges: Seq<DependencyEdge>,
}

/// The trace before anything was visited.
pub open spec fn nothing() -> Trace {
    Trace { visited: Seq::empty(), edges: Seq::empty() }
}

/// Visits `node` for the first time: marks it, then works through its
/// dependencies. `budget` bounds how deep visits may nest; with no budget
/// left the trace comes back unchanged.
pub open spec fn visit(store: Seq<NodeModel>, node: NodeIndex, budget: nat, so_far: Trace) -> Trace
    decreases budget, 0nat, 0nat,
{
    if budget == 0 {
        so_far
    } else {
        expand(
            store,
            node,
            0,
            (budget - 1) as nat,
            Trace { visited: so_far.visited.push(node), edges: so_far.edges },
        )
    }
}

/// Works through the dependencies of `node` from `position` on: for each
/// one, records the edge from the dependency to `node`, and visits the
/// dependency unless it was visited before.
pub open spec fn expand(
    store: Seq<NodeModel>,
    node: NodeIndex,
    position: nat,
    budget: nat,
    so_far: Trace,
) -> Trace
    decreases budget, 1nat, store[node as int].dependencies.len() - position,
{
    let dependencies = store[node as int].dependencies;
    if position >= dependencies.len() {
        so_far
    } else {
        let dependency = dependencies[position as int];
        let recorded = Trace {
            visited: so_far.visited,
            edges: so_far.edges.push(DependencyEdge { source: dependency, destination: node }),
        };
        let descended = if recorded.visited.contains(dependency) {
            recorded
        } else {
            visit(store, dependency, budget, recorded)
        };
        expand(store, node, position + 1, budget, descended)
    }
}

/// The trace of `store` from `root`. Visits nest no deeper than the store
/// has nodes, so the budget given here is never used up.
pub open spec fn traced(store: Seq<NodeModel>, root: NodeIndex) -> Trace {
    visit(store, root, store.len(), nothing())
}

/// A node whose dependencies are being worked through, and the position of
/// the next one.
#[derive(Clone, Copy)]
struct Frame {
    node: NodeIndex,
    next: usize,
}

/// The budget of the frame at `depth` on the stack.
spec fn budget_at(store: Seq<NodeModel>, depth: int) -> nat {
    (store.len() - 1 - depth) as nat
}

/// The trace that results when the walk goes on from `so_far` with the
/// frames of `frames` still open, the last one innermost.
spec fn resume(store: Seq<NodeModel>, frames: Seq<Frame>, so_far: Trace) -> Trace
    decreases frames.len(),
{
    if frames.len() == 0 {
        so_far
    } else {
        let top = frames.last();
        resume(
            store,
            frames.drop_last(),
            expand(store, top.node, top.next as nat, budget_at(store, frames.len() - 1), so_far),
        )
    }
}

/// The steps that the open frames still have to take.
spec fn pending(store: Seq<NodeModel>, frames: Seq<Frame>) -> nat
    decreases frames.len(),
{
    if frames.len() == 0 {
        0
    } else {
        let top = frames.last();
        pending(store, frames.drop_last()) + (store[top.node as int].dependencies.len()
            - top.next) as nat + 1
    }
}

/// Every frame names a node of the store and a position within its
/// dependencies.
spec fn frames_fit(store: Seq<NodeModel>, frames: Seq<Frame>) -> bool {
    forall|i: int|
        0 <= i < frames.len() ==> (#[trigger] frames[i]).node < store.len() && frames[i].next
            <= store[frames[i].node as int].dependencies.len()
}

/// Walks the dependencies of `root` depth first and returns the nodes
/// reached, in the order of their first visit, with one edge for every
/// dependency of every node reached.
pub fn trace(root: NodeIndex, store: &NodeStore) -> (found: (VisitedSet, Vec<DependencyEdge>))
    requires
        store.is_valid(),
        root < store@.len(),
    ensures
        found.0@ == traced(store@, root).visited,
        found.1@ == traced(store@, root).edges,
        found.0.is_valid(),
        found.0.limit() == store@.len(),
        found.0@[0] == root,
        found.0.members() == reachable_set(store@, root),
        edges_within(found.0@, found.1@),
        one_edge_per_reference(store@, found.0@, found.1@),
{
    let count = store.len();
    let mut visited = VisitedSet::new(count);
    let mut edges: Vec<DependencyEdge> = Vec::new();
    let mut frames: Vec<Frame> = Vec::new();
    visited.insert(root);
    frames.push(Frame { node: root, next: 0 });
    proof {
        let start = Trace { visited: visited@, edges: edges@ };
        assert(start.visited == nothing().visited.push(root));
        assert(frames@.drop_last() =~= Seq::<Frame>::empty());
        assert(resume(store@, frames@, start) == resume(
            store@,
            frames@.drop_last(),
            expand(store@, root, 0, budget_at(store@, 0), start),
        ));
        assert(pending(store@, frames@.drop_last()) == 0);
    }
    while frames.len() > 0
        invariant
            store.is_valid(),
            count == store@.len(),
            visited.is_valid(),
            visited.limit() == count,
            frames@.len() <= visited@.len(),
            frames_fit(store@, frames@),
            resume(store@, frames@, Trace { visited: visited@, edges: edges@ }) == traced(
                store@,
                root,
            ),
        decreases count - visited@.len(), pending(store@, frames@),
    {
        let depth = frames.len() - 1;
        let top = frames[depth];
        let node = store.node(top.node);
        let ghost before = frames@;
        let ghost so_far = Trace { visited: visited@, edges: edges@ };
        proof {
            lemma_distinct_indices_bounded(visited@, count as nat);
            assert(before.last() == top);
        }
        if top.next >= node.dependencies.len() {
            frames.pop();
            proof {
                assert(frames@ =~= before.drop_last());
                assert forall|i: int| 0 <= i < frames@.len() implies (#[trigger] frames@[i]).node
                    < store@.len() && frames@[i].next
                    <= store@[frames@[i].node as int].dependencies.len() by {
                    assert(frames@[i] == before[i]);
                }
            }
        } else {
            let dependency = node.dependencies[top.next];
            let edge = DependencyEdge { source: dependency, destination: top.node };
            edges.push(edge);
            let advanced = Frame { node: top.node, next: top.next + 1 };
            frames.set(depth, advanced);
            let ghost moved = frames@;
            let ghost recorded = Trace { visited: visited@, edges: edges@ };
            proof {
                assert(dependency < count) by {
                    assert(store@[top.node as int].dependencies[top.next as int] < store@.len());
                }
                assert(moved.drop_last() =~= before.drop_last());
                assert(moved.last() == advanced);
                assert(recorded.edges == so_far.edges.push(edge));
            }
            let added = visited.insert(dependency);
            if added {
                frames.push(Frame { node: dependency, next: 0 });
                proof {
                    lemma_room_for_missing(so_far.visited, count as nat, dependency);
                    let entered = Trace { visited: visited@, edges: edges@ };
                    assert(frames@.drop_last() =~= moved);
                    assert(budget_at(store@, depth as int) > 0);
                    assert(visit(store@, dependency, budget_at(store@, depth as int), recorded)
                        == expand(
                        store@,
                        dependency,
                        0,
                        budget_at(store@, depth + 1),
                        entered,
                    ));
                    assert(resume(store@, frames@, entered) == resume(
                        store@,
                        moved,
                        expand(store@, dependency, 0, budget_at(store@, depth + 1), entered),
                    ));
                    assert forall|i: int| 0 <= i < frames@.len() implies (#[trigger] frames@[i]).node
                        < store@.len() && frames@[i].next
                        <= store@[frames@[i].node as int].dependencies.len() by {
                        if i < depth {
                            assert(frames@[i] == before[i]);
                        }
                    }
                }
            } else {
                proof {
                    assert forall|i: int| 0 <= i < frames@.len() implies (#[trigger] frames@[i]).node
                        < store@.len() && frames@[i].next
                        <= store@[frames@[i].node as int].dependencies.len() by {
                        if i < depth {
                            assert(frames@[i] == before[i]);
                        }
                    }
                }
            }
        }
    }
    proof {
        lemma_traced(store@, root);
    }
    (visited, edges)
}

} // verus!
