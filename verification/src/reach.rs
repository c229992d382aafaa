//! Reachability along dependencies, and counting in sequences.

use crate::store::{well_formed, NodeIndex, NodeModel};
use vstd::prelude::*;

verus! {

/// `path` starts somewhere in the store and goes from each node to one of
/// its dependencies.
pub open spec fn is_path(store: Seq<NodeModel>, path: Seq<NodeIndex>) -> bool {
    &&& path.len() > 0
    &&& forall|i: int| 0 <= i < path.len() ==> #[trigger] path[i] < store.len()
    &&& forall|i: int|
        0 <= i < path.len() - 1 ==> store[#[trigger] path[i] as int].dependencies.contains(
            path[i + 1],
        )
}

/// `to` can be reached from `from` by following dependencies; every node
/// of the store reaches itself.
pub open spec fn reachable(store: Seq<NodeModel>, from: NodeIndex, to: NodeIndex) -> bool {
    exists|path: Seq<NodeIndex>| #[trigger]
        is_path(store, path) && path.first() == from && path.last() == to
}

/// The nodes that can be reached from `root`.
pub open spec fn reachable_set(store: Seq<NodeModel>, root: NodeIndex) -> Set<NodeIndex> {
    Set::new(|node: NodeIndex| reachable(store, root, node))
}

/// Every dependency of `node` is in `nodes`.
pub open spec fn closed_at(store: Seq<NodeModel>, nodes: Seq<NodeIndex>, node: NodeIndex) -> bool {
    forall|j: int|
        0 <= j < store[node as int].dependencies.len() ==> nodes.contains(
            #[trigger] store[node as int].dependencies[j],
        )
}

/// A node of the store reaches itself.
pub proof fn lemma_reaches_itself(store: Seq<NodeModel>, node: NodeIndex)
    requires
        node < store.len(),
    ensures
        reachable(store, node, node),
{
    let path = seq![node];
    assert(is_path(store, path));
    assert(path.first() == node && path.last() == node);
}

/// What reaches a node reaches its dependencies.
pub proof fn lemma_reaches_dependency(
    store: Seq<NodeModel>,
    from: NodeIndex,
    through: NodeIndex,
    position: int,
)
    requires
        well_formed(store),
        reachable(store, from, through),
        0 <= position < store[through as int].dependencies.len(),
    ensures
        reachable(store, from, store[through as int].dependencies[position]),
{
    let path = choose|path: Seq<NodeIndex>| #[trigger]
        is_path(store, path) && path.first() == from && path.last() == through;
    let next = store[through as int].dependencies[position];
    let longer = path.push(next);
    assert(path[path.len() - 1] == through);
    assert(through < store.len());
    assert forall|i: int| 0 <= i < longer.len() implies #[trigger] longer[i] < store.len() by {
        if i < path.len() {
            assert(longer[i] == path[i]);
        }
    }
    assert forall|i: int| 0 <= i < longer.len() - 1 implies store[#[trigger] longer[i] as int].dependencies.contains(
        longer[i + 1],
    ) by {
        assert(longer[i] == path[i]);
        if i < path.len() - 1 {
            assert(longer[i + 1] == path[i + 1]);
        }
    }
    assert(is_path(store, longer));
    assert(longer.first() == from && longer.last() == next);
}

/// A collection that holds `root` and every dependency of each of its
/// nodes holds every node that `root` reaches.
pub proof fn lemma_closed_holds_reachable(
    store: Seq<NodeModel>,
    root: NodeIndex,
    nodes: Seq<NodeIndex>,
    target: NodeIndex,
)
    requires
        nodes.contains(root),
        forall|i: int| 0 <= i < nodes.len() ==> closed_at(store, nodes, #[trigger] nodes[i]),
        reachable(store, root, target),
    ensures
        nodes.contains(target),
{
    let path = choose|path: Seq<NodeIndex>| #[trigger]
        is_path(store, path) && path.first() == root && path.last() == target;
    lemma_path_stays_inside(store, nodes, path, path.len() - 1);
}

proof fn lemma_path_stays_inside(
    store: Seq<NodeModel>,
    nodes: Seq<NodeIndex>,
    path: Seq<NodeIndex>,
    upto: int,
)
    requires
        is_path(store, path),
        nodes.contains(path.first()),
        forall|i: int| 0 <= i < nodes.len() ==> closed_at(store, nodes, #[trigger] nodes[i]),
        0 <= upto < path.len(),
    ensures
        nodes.contains(path[upto]),
    decreases upto,
{
    if upto > 0 {
        lemma_path_stays_inside(store, nodes, path, upto - 1);
        let before = path[upto - 1];
        let at = nodes.index_of(before);
        assert(closed_at(store, nodes, nodes[at]));
        let dependencies = store[before as int].dependencies;
        assert(dependencies.contains(path[upto - 1 + 1]));
        let j = dependencies.index_of(path[upto]);
        assert(nodes.contains(dependencies[j]));
    }
}

/// How often `item` occurs in `items`.
pub open spec fn occurrences<T>(items: Seq<T>, item: T) -> nat
    decreases items.len(),
{
    if items.len() == 0 {
        0
    } else {
        occurrences(items.drop_last(), item) + if items.last() == item {
            1nat
        } else {
            0nat
        }
    }
}

/// An item occurs in a sequence exactly when it is counted there at least
/// once.
pub proof fn lemma_occurs_iff_counted<T>(items: Seq<T>, item: T)
    ensures
        items.contains(item) <==> occurrences(items, item) > 0,
    decreases items.len(),
{
    if items.len() > 0 {
        let shorter = items.drop_last();
        lemma_occurs_iff_counted(shorter, item);
        if shorter.contains(item) {
            let at = shorter.index_of(item);
            assert(items[at] == item);
        }
        if items.contains(item) && items.last() != item {
            let at = items.index_of(item);
            assert(shorter[at] == item);
        }
        if items.last() == item {
            assert(items[items.len() - 1] == item);
        }
    }
}

} // verus!
