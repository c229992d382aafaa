use trace_diagram::store::{NodeStore, StoreError, ValueNode};
use trace_diagram::trace::{trace, DependencyEdge};
use trace_diagram::visited::VisitedSet;

fn value(data: f64, operation: Option<&str>, dependencies: Vec<usize>) -> ValueNode {
    ValueNode {
        data: format!("{:.4}", data),
        operation: operation.map(|label| label.to_string()),
        dependencies,
    }
}

fn store_of(nodes: Vec<ValueNode>) -> NodeStore {
    match NodeStore::from_nodes(nodes) {
        Ok(store) => store,
        Err(error) => panic!("refused: {:?}", error),
    }
}

fn edge(source: usize, destination: usize) -> DependencyEdge {
    DependencyEdge { source, destination }
}

fn diamond() -> NodeStore {
    store_of(vec![
        value(2.0, None, vec![]),
        value(4.0, Some("mul"), vec![0]),
        value(4.0, Some("add"), vec![0]),
        value(8.0, Some("sum"), vec![1, 2]),
    ])
}

#[test]
fn sum_trace_visits_both_nodes_and_records_one_edge() {
    let store = store_of(vec![value(1.0, None, vec![]), value(3.0, Some("add"), vec![0])]);
    let (visited, edges) = trace(1, &store);
    assert_eq!(visited.len(), 2);
    assert!(visited.contains(0));
    assert!(visited.contains(1));
    assert_eq!(visited.indices(), &vec![1, 0]);
    assert_eq!(edges, vec![edge(0, 1)]);
}

#[test]
fn diamond_visits_shared_node_once() {
    let store = diamond();
    let (visited, edges) = trace(3, &store);
    assert_eq!(visited.len(), 4);
    for node in 0..4 {
        assert!(visited.contains(node));
    }
    let times_visited = visited.indices().iter().filter(|&&node| node == 0).count();
    assert_eq!(times_visited, 1);
    let from_shared: Vec<DependencyEdge> =
        edges.iter().copied().filter(|edge| edge.source == 0).collect();
    assert_eq!(from_shared, vec![edge(0, 1), edge(0, 2)]);
}

#[test]
fn diamond_is_walked_depth_first_in_argument_order() {
    let store = diamond();
    let (visited, edges) = trace(3, &store);
    assert_eq!(visited.indices(), &vec![3, 1, 0, 2]);
    assert_eq!(edges, vec![edge(1, 3), edge(0, 1), edge(2, 3), edge(0, 2)]);
}

#[test]
fn trace_of_a_leaf_is_the_leaf_alone() {
    let store = diamond();
    let (visited, edges) = trace(0, &store);
    assert_eq!(visited.indices(), &vec![0]);
    assert!(edges.is_empty());
}

#[test]
fn trace_leaves_unreachable_nodes_out() {
    let store = diamond();
    let (visited, edges) = trace(1, &store);
    assert_eq!(visited.indices(), &vec![1, 0]);
    assert!(!visited.contains(2));
    assert!(!visited.contains(3));
    assert_eq!(edges, vec![edge(0, 1)]);
}

#[test]
fn tracing_twice_gives_the_same_result() {
    let store = diamond();
    let (first_visited, first_edges) = trace(3, &store);
    let (second_visited, second_edges) = trace(3, &store);
    assert_eq!(first_visited.indices(), second_visited.indices());
    assert_eq!(first_edges, second_edges);
}

#[test]
fn a_dependency_named_twice_gives_two_edges() {
    let store = store_of(vec![value(3.0, None, vec![]), value(9.0, Some("mul"), vec![0, 0])]);
    let (visited, edges) = trace(1, &store);
    assert_eq!(visited.indices(), &vec![1, 0]);
    assert_eq!(edges, vec![edge(0, 1), edge(0, 1)]);
}

#[test]
fn trace_ends_on_a_cycle() {
    let store = store_of(vec![
        value(1.0, Some("a"), vec![1]),
        value(2.0, Some("b"), vec![2]),
        value(3.0, Some("c"), vec![0, 2]),
    ]);
    let (visited, edges) = trace(0, &store);
    assert_eq!(visited.indices(), &vec![0, 1, 2]);
    assert_eq!(edges, vec![edge(1, 0), edge(2, 1), edge(0, 2), edge(2, 2)]);
}

#[test]
fn trace_follows_a_long_chain() {
    let mut store = NodeStore::new();
    assert_eq!(store.push(value(0.0, None, vec![])), Ok(0));
    for node in 1..20000usize {
        assert_eq!(store.push(value(node as f64, Some("inc"), vec![node - 1])), Ok(node));
    }
    let (visited, edges) = trace(19999, &store);
    assert_eq!(visited.len(), 20000);
    assert_eq!(edges.len(), 19999);
    assert_eq!(visited.get(0), 19999);
    assert_eq!(visited.get(19999), 0);
    assert_eq!(edges[0], edge(19998, 19999));
}

#[test]
fn push_returns_consecutive_indices() {
    let mut store = NodeStore::new();
    assert_eq!(store.len(), 0);
    assert_eq!(store.push(value(1.0, None, vec![])), Ok(0));
    assert_eq!(store.push(value(2.0, Some("neg"), vec![0])), Ok(1));
    assert_eq!(store.len(), 2);
    assert_eq!(store.node(1).operation, Some("neg".to_string()));
    assert_eq!(store.node(1).data, "2.0000");
    assert_eq!(store.get(0), Some(&value(1.0, None, vec![])));
    assert_eq!(store.get(2), None);
}

#[test]
fn push_refuses_a_dangling_dependency() {
    let mut store = NodeStore::new();
    assert_eq!(store.push(value(1.0, None, vec![])), Ok(0));
    let refused = store.push(value(2.0, Some("add"), vec![0, 5, 7]));
    assert_eq!(refused, Err(StoreError::InvalidDependency { node: 1, position: 1, index: 5 }));
    assert_eq!(store.len(), 1);
    let own_index = store.push(value(2.0, Some("add"), vec![1]));
    assert_eq!(own_index, Err(StoreError::InvalidDependency { node: 1, position: 0, index: 1 }));
}

#[test]
fn from_nodes_accepts_forward_references() {
    let store = store_of(vec![value(1.0, Some("neg"), vec![1]), value(2.0, None, vec![])]);
    assert_eq!(store.len(), 2);
    let (visited, edges) = trace(0, &store);
    assert_eq!(visited.indices(), &vec![0, 1]);
    assert_eq!(edges, vec![edge(1, 0)]);
}

#[test]
fn from_nodes_reports_the_first_dangling_dependency() {
    let refused = NodeStore::from_nodes(vec![
        value(1.0, None, vec![]),
        value(2.0, Some("add"), vec![0, 2]),
        value(3.0, Some("add"), vec![9]),
    ]);
    assert_eq!(
        refused.err(),
        Some(StoreError::InvalidDependency { node: 2, position: 0, index: 9 })
    );
    let refused = NodeStore::from_nodes(vec![
        value(1.0, None, vec![0, 3]),
        value(2.0, Some("add"), vec![4]),
    ]);
    assert_eq!(
        refused.err(),
        Some(StoreError::InvalidDependency { node: 0, position: 1, index: 3 })
    );
}

#[test]
fn visited_set_keeps_each_index_once() {
    let mut set = VisitedSet::new(4);
    assert_eq!(set.capacity(), 4);
    assert_eq!(set.len(), 0);
    assert!(set.insert(2));
    assert!(set.insert(0));
    assert!(!set.insert(2));
    assert_eq!(set.len(), 2);
    assert_eq!(set.indices(), &vec![2, 0]);
    assert_eq!(set.get(1), 0);
    assert!(set.contains(0));
    assert!(!set.contains(1));
    assert!(!set.contains(17));
}
