use trace_diagram::diagram::{
    build, draw, AbstractDiagram, BoxKind, Shape, VisualEdge, VisualId, VisualNode,
};
use trace_diagram::render::{
    conclude_render, conclude_run, find_box, plan_render, to_dot, RenderError, RenderResult,
    RunOutcome, MAX_ITEMS,
};
use trace_diagram::store::{NodeStore, ValueNode};
use trace_diagram::trace::{trace, DependencyEdge};
use trace_diagram::visited::VisitedSet;

fn value_node(data: f64, operation: Option<&str>, dependencies: Vec<usize>) -> ValueNode {
    ValueNode {
        data: format!("{:.4}", data),
        operation: operation.map(|label| label.to_string()),
        dependencies,
    }
}

fn store_with(nodes: Vec<ValueNode>) -> NodeStore {
    match NodeStore::from_nodes(nodes) {
        Ok(store) => store,
        Err(error) => panic!("refused: {:?}", error),
    }
}

fn value_id(node: usize) -> VisualId {
    VisualId { kind: BoxKind::Value, node }
}

fn operation_id(node: usize) -> VisualId {
    VisualId { kind: BoxKind::Operation, node }
}

fn a_box(id: VisualId, label: &str, shape: Shape) -> VisualNode {
    VisualNode { id, label: label.to_string(), shape }
}

fn arrow(from: VisualId, to: VisualId) -> VisualEdge {
    VisualEdge { from, to }
}

fn sum_store() -> NodeStore {
    store_with(vec![value_node(1.0, None, vec![]), value_node(3.0, Some("add"), vec![0])])
}

fn flowchart() -> AbstractDiagram {
    AbstractDiagram {
        nodes: vec![
            a_box(value_id(0), "Start", Shape::Rectangle),
            a_box(value_id(1), "Process", Shape::Rectangle),
            a_box(value_id(2), "Decision", Shape::Circle),
            a_box(value_id(3), "End", Shape::Circle),
        ],
        edges: vec![
            arrow(value_id(0), value_id(1)),
            arrow(value_id(1), value_id(2)),
            arrow(value_id(2), value_id(3)),
        ],
    }
}

fn touches_an_operation(edge: &VisualEdge) -> bool {
    edge.from.kind == BoxKind::Operation || edge.to.kind == BoxKind::Operation
}

#[test]
fn sum_diagram_has_two_values_and_one_operation() {
    let store = sum_store();
    let (visited, edges) = trace(1, &store);
    let diagram = build(1, &store, &visited, &edges);
    assert_eq!(
        diagram.nodes,
        vec![
            a_box(value_id(1), "3.0000", Shape::Circle),
            a_box(operation_id(1), "add", Shape::Circle),
            a_box(value_id(0), "1.0000", Shape::Rectangle),
        ]
    );
    assert_eq!(
        diagram.edges,
        vec![arrow(operation_id(1), value_id(1)), arrow(value_id(0), operation_id(1))]
    );
}

#[test]
fn draw_is_trace_then_build() {
    let store = sum_store();
    let (visited, edges) = trace(1, &store);
    assert_eq!(draw(1, &store), build(1, &store, &visited, &edges));
}

#[test]
fn value_labels_have_four_decimals() {
    let store = store_with(vec![value_node(3.0, None, vec![]), value_node(-0.12345, None, vec![])]);
    assert_eq!(draw(0, &store).nodes[0].label, "3.0000");
    assert_eq!(draw(1, &store).nodes[0].label, "-0.1235");
}

#[test]
fn diamond_diagram_never_joins_two_values() {
    let store = store_with(vec![
        value_node(2.0, None, vec![]),
        value_node(4.0, Some("mul"), vec![0]),
        value_node(4.0, Some("add"), vec![0]),
        value_node(8.0, Some("sum"), vec![1, 2]),
    ]);
    let diagram = draw(3, &store);
    assert_eq!(diagram.nodes.len(), 7);
    assert_eq!(diagram.edges.len(), 7);
    assert!(diagram.edges.iter().all(touches_an_operation));
    assert!(diagram.edges.iter().all(|edge| edge.from.kind != edge.to.kind));
    assert_eq!(
        diagram.edges,
        vec![
            arrow(operation_id(3), value_id(3)),
            arrow(operation_id(1), value_id(1)),
            arrow(operation_id(2), value_id(2)),
            arrow(value_id(1), operation_id(3)),
            arrow(value_id(0), operation_id(1)),
            arrow(value_id(2), operation_id(3)),
            arrow(value_id(0), operation_id(2)),
        ]
    );
}

#[test]
fn dependency_into_operationless_node_gives_no_arrow() {
    let store = store_with(vec![value_node(1.0, None, vec![]), value_node(2.0, None, vec![0])]);
    let (visited, edges) = trace(1, &store);
    assert_eq!(edges, vec![DependencyEdge { source: 0, destination: 1 }]);
    let diagram = build(1, &store, &visited, &edges);
    assert_eq!(
        diagram.nodes,
        vec![
            a_box(value_id(1), "2.0000", Shape::Rectangle),
            a_box(value_id(0), "1.0000", Shape::Rectangle),
        ]
    );
    assert!(diagram.edges.is_empty());
}

#[test]
fn only_edges_into_operations_are_drawn() {
    let store = store_with(vec![
        value_node(1.0, None, vec![]),
        value_node(2.0, None, vec![0]),
        value_node(3.0, Some("add"), vec![1, 0]),
    ]);
    let diagram = draw(2, &store);
    assert_eq!(
        diagram.edges,
        vec![
            arrow(operation_id(2), value_id(2)),
            arrow(value_id(1), operation_id(2)),
            arrow(value_id(0), operation_id(2)),
        ]
    );
}

#[test]
fn build_takes_any_visited_nodes_and_edges() {
    let store = sum_store();
    let mut visited = VisitedSet::new(2);
    assert!(visited.insert(0));
    let edges = vec![
        DependencyEdge { source: 0, destination: 1 },
        DependencyEdge { source: 7, destination: 0 },
    ];
    let diagram = build(0, &store, &visited, &edges);
    assert_eq!(diagram.nodes, vec![a_box(value_id(0), "1.0000", Shape::Rectangle)]);
    assert_eq!(diagram.edges, vec![arrow(value_id(0), operation_id(1))]);
    assert_eq!(to_dot(&diagram), Err(RenderError::LooseArrow { arrow: 0 }));
}

#[test]
fn sum_graphviz_text() {
    let text = to_dot(&draw(1, &sum_store()));
    let expected = "digraph {\n\
        \x20   0 [ label = \"label=3.0000, shape=circle\" label=\"3.0000\" shape=circle]\n\
        \x20   1 [ label = \"label=add, shape=circle\" label=\"add\" shape=circle]\n\
        \x20   2 [ label = \"label=1.0000, shape=rectangle\" label=\"1.0000\" shape=rectangle]\n\
        \x20   1 -> 0 [ ]\n\
        \x20   2 -> 1 [ ]\n\
        }\n";
    assert_eq!(text, Ok(expected.to_string()));
}

#[test]
fn flowchart_graphviz_text() {
    let text = to_dot(&flowchart());
    let expected = "digraph {\n\
        \x20   0 [ label = \"label=Start, shape=rectangle\" label=\"Start\" shape=rectangle]\n\
        \x20   1 [ label = \"label=Process, shape=rectangle\" label=\"Process\" shape=rectangle]\n\
        \x20   2 [ label = \"label=Decision, shape=circle\" label=\"Decision\" shape=circle]\n\
        \x20   3 [ label = \"label=End, shape=circle\" label=\"End\" shape=circle]\n\
        \x20   0 -> 1 [ ]\n\
        \x20   1 -> 2 [ ]\n\
        \x20   2 -> 3 [ ]\n\
        }\n";
    assert_eq!(text, Ok(expected.to_string()));
}

#[test]
fn graphviz_text_of_the_empty_diagram() {
    let empty = AbstractDiagram { nodes: vec![], edges: vec![] };
    assert_eq!(to_dot(&empty), Ok("digraph {\n}\n".to_string()));
}

#[test]
fn graphviz_text_escapes_the_description_only() {
    let diagram = AbstractDiagram {
        nodes: vec![a_box(value_id(0), "a\"b", Shape::Circle)],
        edges: vec![arrow(value_id(0), value_id(0))],
    };
    let expected = "digraph {\n\
        \x20   0 [ label = \"label=a\\\"b, shape=circle\" label=\"a\"b\" shape=circle]\n\
        \x20   0 -> 0 [ ]\n\
        }\n";
    assert_eq!(to_dot(&diagram), Ok(expected.to_string()));
}

#[test]
fn arrows_go_to_the_first_box_of_a_name() {
    let diagram = AbstractDiagram {
        nodes: vec![
            a_box(value_id(5), "first", Shape::Rectangle),
            a_box(operation_id(5), "op", Shape::Circle),
            a_box(value_id(5), "second", Shape::Rectangle),
        ],
        edges: vec![arrow(operation_id(5), value_id(5))],
    };
    assert_eq!(find_box(&diagram.nodes, value_id(5)), Some(0));
    assert_eq!(find_box(&diagram.nodes, operation_id(5)), Some(1));
    assert_eq!(find_box(&diagram.nodes, operation_id(4)), None);
    let text = to_dot(&diagram).expect("all ends are boxes");
    assert!(text.ends_with("    1 -> 0 [ ]\n}\n"));
}

#[test]
fn loose_arrow_is_reported_by_position() {
    let mut diagram = flowchart();
    diagram.edges.push(arrow(value_id(3), operation_id(3)));
    diagram.edges.push(arrow(value_id(9), value_id(0)));
    assert_eq!(to_dot(&diagram), Err(RenderError::LooseArrow { arrow: 3 }));
    assert_eq!(plan_render(&diagram, "graph.svg").err(), Some(RenderError::LooseArrow { arrow: 3 }));
}

#[test]
fn box_texts() {
    let start = a_box(value_id(0), "Start", Shape::Rectangle);
    assert_eq!(start.describe(), "label=Start, shape=rectangle");
    assert_eq!(start.attributes(), "label=\"Start\" shape=rectangle");
    let decision = a_box(operation_id(2), "Decision", Shape::Circle);
    assert_eq!(decision.describe(), "label=Decision, shape=circle");
    assert_eq!(decision.attributes(), "label=\"Decision\" shape=circle");
    assert_eq!(Shape::Rectangle.name(), "rectangle");
    assert_eq!(Shape::Circle.name(), "circle");
}

#[test]
fn render_job_names_the_program_and_its_files() {
    let diagram = flowchart();
    let job = plan_render(&diagram, "out/flow.svg").expect("the diagram can be drawn");
    assert_eq!(Ok(job.document.clone()), to_dot(&diagram));
    assert_eq!(job.document_path, "graph.dot");
    assert_eq!(job.program, "dot");
    assert_eq!(job.arguments, vec!["-Tsvg", "graph.dot", "-o", "out/flow.svg"]);
    assert_eq!(job.output_path, "out/flow.svg");
}

#[test]
fn render_job_hands_any_output_path_on() {
    let diagram = flowchart();
    let job = plan_render(&diagram, "").expect("the diagram can be drawn");
    assert_eq!(Ok(job.document.clone()), to_dot(&diagram));
    assert_eq!(job.arguments, vec!["-Tsvg", "graph.dot", "-o", ""]);
    assert_eq!(job.output_path, "");
    let job = plan_render(&diagram, " a path/with \"quotes\".svg").expect("the diagram can be drawn");
    assert_eq!(job.arguments, vec!["-Tsvg", "graph.dot", "-o", " a path/with \"quotes\".svg"]);
    assert_eq!(job.output_path, " a path/with \"quotes\".svg");
}

#[test]
fn run_that_exits_well_is_a_success() {
    let job = plan_render(&flowchart(), "graph.svg").expect("the diagram can be drawn");
    let outcome = RunOutcome::Exited { succeeded: true, diagnostics: "a warning\n".to_string() };
    assert_eq!(
        conclude_run(&job, outcome),
        RenderResult::Success { output_path: "graph.svg".to_string() }
    );
}

#[test]
fn run_that_exits_badly_fails_with_the_diagnostics() {
    let job = plan_render(&flowchart(), "graph.svg").expect("the diagram can be drawn");
    let diagnostics = "Error: graph.dot: syntax error in line 2 near '['\n".to_string();
    let outcome = RunOutcome::Exited { succeeded: false, diagnostics: diagnostics.clone() };
    assert_eq!(conclude_run(&job, outcome), RenderResult::Failure { message: diagnostics });
}

#[test]
fn run_without_a_written_document_fails() {
    let job = plan_render(&flowchart(), "graph.svg").expect("the diagram can be drawn");
    let outcome = RunOutcome::WriteFailed { message: "Permission denied (os error 13)".to_string() };
    assert_eq!(
        conclude_run(&job, outcome),
        RenderResult::Failure { message: "Permission denied (os error 13)".to_string() }
    );
}

#[test]
fn run_that_does_not_start_fails() {
    let job = plan_render(&flowchart(), "graph.svg").expect("the diagram can be drawn");
    let outcome =
        RunOutcome::StartFailed { message: "No such file or directory (os error 2)".to_string() };
    let result = conclude_run(&job, outcome);
    assert_eq!(
        result,
        RenderResult::Failure { message: "No such file or directory (os error 2)".to_string() }
    );
    assert_eq!(result.report(), "Error: No such file or directory (os error 2)");
}

#[test]
fn success_carries_the_output_path() {
    let job = plan_render(&draw(1, &sum_store()), "graph.svg").expect("the diagram can be drawn");
    let outcome = conclude_render(&job, true, String::new());
    assert_eq!(outcome, RenderResult::Success { output_path: "graph.svg".to_string() });
    match &outcome {
        RenderResult::Success { output_path } => assert!(!output_path.is_empty()),
        RenderResult::Failure { .. } => panic!("the backend succeeded"),
    }
    assert_eq!(outcome.report(), "SVG generated at graph.svg");
}

#[test]
fn failure_carries_the_diagnostics_unchanged() {
    let job = plan_render(&flowchart(), "graph.svg").expect("the diagram can be drawn");
    let diagnostics = "Error: graph.dot: syntax error in line 2 near '['\n".to_string();
    let outcome = conclude_render(&job, false, diagnostics.clone());
    assert_eq!(outcome, RenderResult::Failure { message: diagnostics.clone() });
    assert_eq!(outcome.report(), format!("Error: {}", diagnostics));
}

#[test]
fn item_limit_is_the_largest_graph_index() {
    assert_eq!(MAX_ITEMS as u64, u32::MAX as u64);
}
