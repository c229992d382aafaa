//! The abstract diagram, and the builder that expands a trace into one:
//! a box for every value, a box for every operation, and edges that only
//! ever join a value to an operation.

use crate::soundness::edges_within;
use crate::store::{all_below, NodeIndex, NodeModel, NodeStore};
use crate::trace::{trace, traced, DependencyEdge};
use crate::visited::VisitedSet;
use vstd::prelude::*;

verus! {

/// The two kinds of box.
#[derive(Debug, Clone, Copy, PartialEq, Eq, Structural)]
pub enum BoxKind {
    /// Shows a node's data.
    Value,
    /// Shows the operation that produced a node.
    Operation,
}

/// The outline a box is drawn with.
#[derive(Debug, Clone, Copy, PartialEq, Eq, Structural)]
pub enum Shape {
    Rectangle,
    Circle,
}

/// Names a box by its kind and the node it belongs to, whatever the order
/// in which the boxes were made.
#[derive(Debug, Clone, Copy, PartialEq, Eq, Structural)]
pub struct VisualId {
    pub kind: BoxKind,
    pub node: NodeIndex,
}

/// A box of the diagram.
#[derive(Debug, Clone, PartialEq, Eq)]
pub struct VisualNode {
    pub id: VisualId,
    pub label: String,
    pub shape: Shape,
}

/// An arrow between two boxes. It carries no text.
#[derive(Debug, Clone, Copy, PartialEq, Eq, Structural)]
pub struct VisualEdge {
    pub from: VisualId,
    pub to: VisualId,
}

/// The boxes and arrows to draw, in the order they were made.
#[derive(Debug, Clone, PartialEq, Eq)]
pub struct AbstractDiagram {
    pub nodes: Vec<VisualNode>,
    pub edges: Vec<VisualEdge>,
}

/// What a [`VisualNode`] is in specifications.
pub ghost struct BoxModel {
    pub id: VisualId,
    pub label: Seq<char>,
    pub shape: Shape,
}

/// What an [`AbstractDiagram`] is in specifications.
pub ghost struct DiagramModel {
    pub nodes: Seq<BoxModel>,
    pub edges: Seq<VisualEdge>,
}

impl View for VisualNode {
    type V = BoxModel;

    open spec fn view(&self) -> BoxModel {
        BoxModel { id: self.id, label: self.label@, shape: self.shape }
    }
}

/// The models of a run of boxes, in the same order.
pub open spec fn box_models(nodes: Seq<VisualNode>) -> Seq<BoxModel> {
    nodes.map_values(|node: VisualNode| node@)
}

impl View for AbstractDiagram {
    type V = DiagramModel;

    open spec fn view(&self) -> DiagramModel {
        DiagramModel { nodes: box_models(self.nodes@), edges: self.edges@ }
    }
}

/// The name of the value box of `node`.
pub open spec fn value_id(node: NodeIndex) -> VisualId {
    VisualId { kind: BoxKind::Value, node }
}

/// The name of the operation box of `node`.
pub open spec fn operation_id(node: NodeIndex) -> VisualId {
    VisualId { kind: BoxKind::Operation, node }
}

/// The value box of a node: its data as the label, in a rectangle for an
/// input and in a circle for a value that an operation produced.
pub open spec fn value_box(store: Seq<NodeModel>, node: NodeIndex) -> BoxModel {
    BoxModel {
        id: value_id(node),
        label: store[node as int].data,
        shape: if store[node as int].operation is Some {
            Shape::Circle
        } else {
            Shape::Rectangle
        },
    }
}

/// The operation box of a node that has an operation: the operation as the
/// label, in a circle.
pub open spec fn operation_box(store: Seq<NodeModel>, node: NodeIndex) -> BoxModel {
    BoxModel {
        id: operation_id(node),
        label: store[node as int].operation->Some_0,
        shape: Shape::Circle,
    }
}

/// The boxes of the nodes of `visited`, node by node: the value box, then
/// the operation box where the node has an operation.
pub open spec fn boxes(store: Seq<NodeModel>, visited: Seq<NodeIndex>) -> Seq<BoxModel>
    decreases visited.len(),
{
    if visited.len() == 0 {
        Seq::empty()
    } else {
        let node = visited.last();
        let before = boxes(store, visited.drop_last()).push(value_box(store, node));
        if store[node as int].operation is Some {
            before.push(operation_box(store, node))
        } else {
            before
        }
    }
}

/// Whether a node has an operation.
pub open spec fn is_produced(store: Seq<NodeModel>) -> spec_fn(NodeIndex) -> bool {
    |node: NodeIndex| store[node as int].operation is Some
}

/// Whether the destination of a dependency edge has an operation.
pub open spec fn feeds_operation(store: Seq<NodeModel>) -> spec_fn(DependencyEdge) -> bool {
    |edge: DependencyEdge| store[edge.destination as int].operation is Some
}

/// The arrow from a node's operation box to its value box.
pub open spec fn producing_arrow() -> spec_fn(NodeIndex) -> VisualEdge {
    |node: NodeIndex| VisualEdge { from: operation_id(node), to: value_id(node) }
}

/// The arrow from the value box of an edge's source to the operation box
/// of its destination.
pub open spec fn feeding_arrow() -> spec_fn(DependencyEdge) -> VisualEdge {
    |edge: DependencyEdge|
        VisualEdge { from: value_id(edge.source), to: operation_id(edge.destination) }
}

/// The arrows of a diagram: first, for every visited node with an
/// operation, the arrow from the operation to the value; then, for every
/// dependency edge into a node with an operation, the arrow from the
/// source's value to that operation. A dependency edge into a node without
/// an operation gives no arrow.
pub open spec fn arrows(
    store: Seq<NodeModel>,
    visited: Seq<NodeIndex>,
    edges: Seq<DependencyEdge>,
) -> Seq<VisualEdge> {
    visited.filter(is_produced(store)).map_values(producing_arrow()) + edges.filter(
        feeds_operation(store),
    ).map_values(feeding_arrow())
}

/// The diagram of a trace.
pub open spec fn drawn(
    store: Seq<NodeModel>,
    visited: Seq<NodeIndex>,
    edges: Seq<DependencyEdge>,
) -> DiagramModel {
    DiagramModel { nodes: boxes(store, visited), edges: arrows(store, visited, edges) }
}

/// Every arrow joins a value box and an operation box.
pub open spec fn alternates(diagram: DiagramModel) -> bool {
    forall|k: int|
        0 <= k < diagram.edges.len() ==> (#[trigger] diagram.edges[k]).from.kind
            != diagram.edges[k].to.kind
}

/// The names of a run of boxes, in the same order.
pub open spec fn ids(nodes: Seq<BoxModel>) -> Seq<VisualId> {
    nodes.map_values(|node: BoxModel| node.id)
}

/// Both ends of every arrow are boxes of the diagram.
pub open spec fn is_closed(diagram: DiagramModel) -> bool {
    forall|k: int|
        0 <= k < diagram.edges.len() ==> ids(diagram.nodes).contains(
            (#[trigger] diagram.edges[k]).from,
        ) && ids(diagram.nodes).contains(diagram.edges[k].to)
}

/// Expands a trace into its diagram. `root` is the node the trace started
/// from; the diagram depends on it only through `visited` and `edges`.
pub fn build(
    root: NodeIndex,
    store: &NodeStore,
    visited: &VisitedSet,
    edges: &Vec<DependencyEdge>,
) -> (diagram: AbstractDiagram)
    requires
        all_below(visited@, store@.len() as int),
        forall|k: int| 0 <= k < edges@.len() ==> (#[trigger] edges@[k]).destination < store@.len(),
    ensures
        diagram@ == drawn(store@, visited@, edges@),
        alternates(diagram@),
        edges_within(visited@, edges@) ==> is_closed(diagram@),
        visited@.no_duplicates() ==> ids(diagram@.nodes).no_duplicates(),
{
    let mut nodes: Vec<VisualNode> = Vec::new();
    let mut arrows_out: Vec<VisualEdge> = Vec::new();
    let mut i: usize = 0;
    proof {
        assert(visited@.take(0) =~= Seq::<NodeIndex>::empty());
        assert(box_models(nodes@) =~= Seq::<BoxModel>::empty());
        assert(visited@.take(0).filter(is_produced(store@)) =~= Seq::<NodeIndex>::empty()) by {
            reveal(Seq::filter);
        }
        assert(arrows_out@ =~= visited@.take(0).filter(is_produced(store@)).map_values(
            producing_arrow(),
        ));
    }
    while i < visited.len()
        invariant
            i <= visited@.len(),
            all_below(visited@, store@.len() as int),
            box_models(nodes@) == boxes(store@, visited@.take(i as int)),
            arrows_out@ == visited@.take(i as int).filter(is_produced(store@)).map_values(
                producing_arrow(),
            ),
        decreases visited@.len() - i,
    {
        let index = visited.get(i);
        let node = store.node(index);
        let ghost done = visited@.take(i as int);
        let ghost boxes_before = box_models(nodes@);
        let ghost arrows_before = arrows_out@;
        proof {
            assert(visited@.take(i + 1) =~= done.push(index));
            assert(done.push(index).drop_last() =~= done);
            done.lemma_filter_push(index, is_produced(store@));
        }
        match &node.operation {
            Some(operation) => {
                let value = VisualNode {
                    id: VisualId { kind: BoxKind::Value, node: index },
                    label: node.data.clone(),
                    shape: Shape::Circle,
                };
                let produced_by = VisualNode {
                    id: VisualId { kind: BoxKind::Operation, node: index },
                    label: operation.clone(),
                    shape: Shape::Circle,
                };
                let arrow = VisualEdge {
                    from: VisualId { kind: BoxKind::Operation, node: index },
                    to: VisualId { kind: BoxKind::Value, node: index },
                };
                proof {
                    assert(value@ == value_box(store@, index));
                    assert(produced_by@ == operation_box(store@, index));
                    assert(arrow == producing_arrow()(index));
                    done.filter(is_produced(store@)).lemma_push_map_commute(producing_arrow(), index);
                }
                nodes.push(value);
                nodes.push(produced_by);
                arrows_out.push(arrow);
                proof {
                    assert(box_models(nodes@) =~= boxes_before.push(value_box(store@, index)).push(
                        operation_box(store@, index),
                    ));
                }
            },
            None => {
                let value = VisualNode {
                    id: VisualId { kind: BoxKind::Value, node: index },
                    label: node.data.clone(),
                    shape: Shape::Rectangle,
                };
                proof {
                    assert(value@ == value_box(store@, index));
                }
                nodes.push(value);
                proof {
                    assert(box_models(nodes@) =~= boxes_before.push(value_box(store@, index)));
                }
            },
        }
        i += 1;
    }
    let ghost produced = arrows_out@;
    let mut k: usize = 0;
    proof {
        assert(visited@.take(i as int) =~= visited@);
        assert(edges@.take(0) =~= Seq::<DependencyEdge>::empty());
        assert(edges@.take(0).filter(feeds_operation(store@)) =~= Seq::<DependencyEdge>::empty()) by {
            reveal(Seq::filter);
        }
        assert(arrows_out@ =~= produced + edges@.take(0).filter(
            feeds_operation(store@),
        ).map_values(feeding_arrow()));
    }
    while k < edges.len()
        invariant
            k <= edges@.len(),
            forall|j: int| 0 <= j < edges@.len() ==> (#[trigger] edges@[j]).destination < store@.len(),
            arrows_out@ == produced + edges@.take(k as int).filter(
                feeds_operation(store@),
            ).map_values(feeding_arrow()),
        decreases edges@.len() - k,
    {
        let edge = edges[k];
        let target = store.node(edge.destination);
        let ghost done = edges@.take(k as int);
        proof {
            assert(edges@.take(k + 1) =~= done.push(edge));
            done.lemma_filter_push(edge, feeds_operation(store@));
            done.filter(feeds_operation(store@)).lemma_push_map_commute(feeding_arrow(), edge);
        }
        if target.operation.is_some() {
            let arrow = VisualEdge {
                from: VisualId { kind: BoxKind::Value, node: edge.source },
                to: VisualId { kind: BoxKind::Operation, node: edge.destination },
            };
            proof {
                assert(arrow == feeding_arrow()(edge));
            }
            arrows_out.push(arrow);
            proof {
                assert(arrows_out@ =~= produced + edges@.take(k + 1).filter(
                    feeds_operation(store@),
                ).map_values(feeding_arrow()));
            }
        }
        k += 1;
    }
    proof {
        assert(edges@.take(k as int) =~= edges@);
        lemma_drawn_alternates(store@, visited@, edges@);
        if edges_within(visited@, edges@) {
            lemma_drawn_closed(store@, visited@, edges@);
        }
        if visited@.no_duplicates() {
            lemma_boxes_distinct(store@, visited@);
        }
    }
    AbstractDiagram { nodes, edges: arrows_out }
}

/// Traces `store` from `root` and expands the trace into its diagram.
pub fn draw(root: NodeIndex, store: &NodeStore) -> (diagram: AbstractDiagram)
    requires
        store.is_valid(),
        root < store@.len(),
    ensures
        diagram@ == drawn(store@, traced(store@, root).visited, traced(store@, root).edges),
        alternates(diagram@),
        is_closed(diagram@),
        ids(diagram@.nodes).no_duplicates(),
{
    let (visited, edges) = trace(root, store);
    proof {
        assert forall|k: int| 0 <= k < edges@.len() implies (#[trigger] edges@[k]).destination
            < store@.len() by {
            let at = visited@.index_of(edges@[k].destination);
            assert(visited@[at] < store@.len());
        }
    }
    build(root, store, &visited, &edges)
}

/// No arrow of a built diagram joins two value boxes, nor two operation
/// boxes: at one end stands a value, at the other an operation.
pub proof fn lemma_drawn_alternates(
    store: Seq<NodeModel>,
    visited: Seq<NodeIndex>,
    edges: Seq<DependencyEdge>,
)
    ensures
        alternates(drawn(store, visited, edges)),
        forall|k: int|
            0 <= k < drawn(store, visited, edges).edges.len() ==> {
                let arrow = #[trigger] drawn(store, visited, edges).edges[k];
                arrow.from.kind == BoxKind::Operation || arrow.to.kind == BoxKind::Operation
            },
{
}

/// A dependency edge into a node without an operation leaves no arrow in
/// the diagram.
pub proof fn lemma_no_arrow_without_operation(
    store: Seq<NodeModel>,
    visited: Seq<NodeIndex>,
    edges: Seq<DependencyEdge>,
    edge: DependencyEdge,
)
    requires
        store[edge.destination as int].operation is None,
    ensures
        !drawn(store, visited, edges).edges.contains(feeding_arrow()(edge)),
{
    broadcast use vstd::seq_lib::group_filter_ensures;

    let all = drawn(store, visited, edges).edges;
    let produced = visited.filter(is_produced(store)).map_values(producing_arrow());
    let fed = edges.filter(feeds_operation(store));
    if all.contains(feeding_arrow()(edge)) {
        let k = all.index_of(feeding_arrow()(edge));
        if k < produced.len() {
            assert(all[k].from.kind == BoxKind::Operation);
        } else {
            let other = fed[k - produced.len()];
            assert(all[k] == feeding_arrow()(other));
            assert(feeds_operation(store)(other));
        }
    }
}

/// Every dependency edge into a node with an operation has its arrow in
/// the diagram, from the source's value box to that operation's box.
pub proof fn lemma_arrow_into_operation(
    store: Seq<NodeModel>,
    visited: Seq<NodeIndex>,
    edges: Seq<DependencyEdge>,
    k: int,
)
    requires
        0 <= k < edges.len(),
        store[edges[k].destination as int].operation is Some,
    ensures
        drawn(store, visited, edges).edges.contains(feeding_arrow()(edges[k])),
{
    broadcast use vstd::seq_lib::group_filter_ensures;

    let all = drawn(store, visited, edges).edges;
    let produced = visited.filter(is_produced(store)).map_values(producing_arrow());
    let fed = edges.filter(feeds_operation(store));
    assert(feeds_operation(store)(edges[k]));
    assert(fed.contains(edges[k]));
    let at = fed.index_of(edges[k]);
    assert(all[produced.len() as int + at] == feeding_arrow()(fed[at]));
}

/// Every box made for `visited` belongs to one of its nodes; each of them
/// has its value box, and its operation box if it has an operation.
pub proof fn lemma_boxes_members(store: Seq<NodeModel>, visited: Seq<NodeIndex>)
    ensures
        forall|k: int|
            0 <= k < boxes(store, visited).len() ==> visited.contains(
                (#[trigger] boxes(store, visited)[k]).id.node,
            ),
        forall|i: int|
            0 <= i < visited.len() ==> ids(boxes(store, visited)).contains(
                value_id(#[trigger] visited[i]),
            ),
        forall|i: int|
            0 <= i < visited.len() && store[visited[i] as int].operation is Some ==> ids(
                boxes(store, visited),
            ).contains(operation_id(#[trigger] visited[i])),
    decreases visited.len(),
{
    if visited.len() > 0 {
        let shorter = visited.drop_last();
        let node = visited.last();
        let inner = boxes(store, shorter);
        let all = boxes(store, visited);
        lemma_boxes_members(store, shorter);
        assert(visited[visited.len() - 1] == node);
        assert forall|k: int| 0 <= k < all.len() implies visited.contains((#[trigger] all[k]).id.node) by {
            if k < inner.len() {
                assert(all[k] == inner[k]);
                let at = shorter.index_of(inner[k].id.node);
                assert(visited[at] == inner[k].id.node);
            }
        }
        assert(ids(all)[inner.len() as int] == value_id(node));
        if store[node as int].operation is Some {
            assert(ids(all)[inner.len() as int + 1] == operation_id(node));
        }
        assert forall|i: int| 0 <= i < visited.len() implies ids(all).contains(
            value_id(#[trigger] visited[i]),
        ) && (store[visited[i] as int].operation is Some ==> ids(all).contains(
            operation_id(visited[i]),
        )) by {
            if i < shorter.len() {
                assert(visited[i] == shorter[i]);
                let at = ids(inner).index_of(value_id(shorter[i]));
                assert(ids(all)[at] == value_id(shorter[i]));
                if store[visited[i] as int].operation is Some {
                    let at2 = ids(inner).index_of(operation_id(shorter[i]));
                    assert(ids(all)[at2] == operation_id(shorter[i]));
                }
            }
        }
    }
}

/// When both ends of every dependency edge were visited, both ends of
/// every arrow of the diagram are boxes of the diagram.
pub proof fn lemma_drawn_closed(
    store: Seq<NodeModel>,
    visited: Seq<NodeIndex>,
    edges: Seq<DependencyEdge>,
)
    requires
        edges_within(visited, edges),
    ensures
        is_closed(drawn(store, visited, edges)),
{
    broadcast use vstd::seq_lib::group_filter_ensures;

    let diagram = drawn(store, visited, edges);
    let produced = visited.filter(is_produced(store));
    let fed = edges.filter(feeds_operation(store));
    lemma_boxes_members(store, visited);
    assert forall|k: int| 0 <= k < diagram.edges.len() implies ids(diagram.nodes).contains(
        (#[trigger] diagram.edges[k]).from,
    ) && ids(diagram.nodes).contains(diagram.edges[k].to) by {
        if k < produced.len() {
            let node = produced[k];
            assert(diagram.edges[k] == producing_arrow()(node));
            assert(is_produced(store)(node));
            assert(produced.contains(node));
            visited.lemma_filter_contains_rev(is_produced(store), node);
            let at = visited.index_of(node);
            assert(visited[at] == node);
        } else {
            let edge = fed[k - produced.len()];
            assert(diagram.edges[k] == feeding_arrow()(edge));
            assert(feeds_operation(store)(edge));
            assert(fed.contains(edge));
            edges.lemma_filter_contains_rev(feeds_operation(store), edge);
            let e = edges.index_of(edge);
            assert(visited.contains(edges[e].source));
            let a = visited.index_of(edge.source);
            let b = visited.index_of(edge.destination);
            assert(visited[a] == edge.source && visited[b] == edge.destination);
        }
    }
}

/// Distinct nodes give boxes with distinct names.
pub proof fn lemma_boxes_distinct(store: Seq<NodeModel>, visited: Seq<NodeIndex>)
    requires
        visited.no_duplicates(),
    ensures
        ids(boxes(store, visited)).no_duplicates(),
    decreases visited.len(),
{
    if visited.len() > 0 {
        let shorter = visited.drop_last();
        let node = visited.last();
        let inner = boxes(store, shorter);
        let all = boxes(store, visited);
        lemma_boxes_distinct(store, shorter);
        lemma_boxes_members(store, shorter);
        assert forall|a: int, b: int| 0 <= a < all.len() && 0 <= b < all.len() && a != b implies ids(
            all,
        )[a] != ids(all)[b] by {
            if a < inner.len() && b < inner.len() {
                assert(ids(inner)[a] != ids(inner)[b]);
            } else if a < inner.len() {
                assert(shorter.contains(inner[a].id.node));
                let at = shorter.index_of(inner[a].id.node);
                assert(visited[at] != visited[visited.len() - 1]);
            } else if b < inner.len() {
                assert(shorter.contains(inner[b].id.node));
                let at = shorter.index_of(inner[b].id.node);
                assert(visited[at] != visited[visited.len() - 1]);
            }
        }
    }
}

} // verus!
