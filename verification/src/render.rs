//! The renderer's side of a diagram: its Graphviz text, the job handed to
//! the program that draws it, and what the program's answer amounts to.

use crate::diagram::{
    box_models, ids, is_closed, AbstractDiagram, BoxModel, DiagramModel, Shape, VisualEdge, VisualId,
    VisualNode,
};
use petgraph::dot::{Config, Dot};
use petgraph::graph::{DiGraph, NodeIndex};
use vstd::prelude::*;

verus! {

/// `petgraph::graph::Graph`, taken as it is: nothing of its inside is
/// known here but what `graph_nodes` and `graph_edges` name.
#[verifier::external_type_specification]
#[verifier::external_body]
#[verifier::reject_recursive_types(N)]
#[verifier::reject_recursive_types(E)]
#[verifier::reject_recursive_types(Ty)]
#[verifier::reject_recursive_types(Ix)]
pub struct ExGraph<N, E, Ty, Ix>(petgraph::graph::Graph<N, E, Ty, Ix>);

/// `petgraph::Directed`, the marker of graphs whose edges have a direction.
#[verifier::external_type_specification]
#[verifier::external_body]
pub struct ExDirected(petgraph::Directed);

/// The weights of a graph's nodes, in the order of their indices.
pub uninterp spec fn graph_nodes(graph: DiGraph<String, String>) -> Seq<Seq<char>>;

/// The two ends of each of a graph's edges, as node indices, in the order
/// of the edges' indices.
pub uninterp spec fn graph_edges(graph: DiGraph<String, String>) -> Seq<(int, int)>;

/// The text that `petgraph::dot::Dot` writes for a directed graph with the
/// node weights `weights` and the edges `edges`, when edge labels are
/// switched off, node `i` is given the attributes `attributes[i]` and
/// edges are given none.
pub uninterp spec fn dot_text(
    weights: Seq<Seq<char>>,
    attributes: Seq<Seq<char>>,
    edges: Seq<(int, int)>,
) -> Seq<char>;

/// The contents of a run of strings, in the same order.
pub open spec fn texts(strings: Seq<String>) -> Seq<Seq<char>> {
    strings.map_values(|text: String| text@)
}

/// `petgraph::graph::Graph::new`: a directed graph without nodes or edges.
#[verifier::external_body]
fn graph_new() -> (graph: DiGraph<String, String>)
    ensures
        graph_nodes(graph) == Seq::<Seq<char>>::empty(),
        graph_edges(graph) == Seq::<(int, int)>::empty(),
{
    DiGraph::new()
}

/// `petgraph::graph::Graph::add_node`: appends a node with the given
/// weight and returns its index, which is the number of nodes before it.
/// The edges stay. The graph must hold fewer than `u32::MAX` nodes.
#[verifier::external_body]
fn graph_add_node(graph: &mut DiGraph<String, String>, weight: String) -> (index: usize)
    requires
        graph_nodes(*old(graph)).len() < u32::MAX,
    ensures
        index == graph_nodes(*old(graph)).len(),
        graph_nodes(*final(graph)) == graph_nodes(*old(graph)).push(weight@),
        graph_edges(*final(graph)) == graph_edges(*old(graph)),
{
    graph.add_node(weight).index()
}

/// `petgraph::graph::Graph::add_edge`: appends an edge between two
/// existing nodes. The nodes stay. The graph must hold fewer than
/// `u32::MAX` edges.
#[verifier::external_body]
fn graph_add_edge(graph: &mut DiGraph<String, String>, from: usize, to: usize)
    requires
        from < graph_nodes(*old(graph)).len(),
        to < graph_nodes(*old(graph)).len(),
        graph_edges(*old(graph)).len() < u32::MAX,
    ensures
        graph_nodes(*final(graph)) == graph_nodes(*old(graph)),
        graph_edges(*final(graph)) == graph_edges(*old(graph)).push((from as int, to as int)),
{
    graph.add_edge(NodeIndex::new(from), NodeIndex::new(to), String::new());
}

/// The attributes of the node with the given index: the string at that
/// place, and nothing behind the last.
fn attributes_at(attributes: &Vec<String>, index: usize) -> (text: String)
    ensures
        text@ == if index < attributes@.len() {
            attributes@[index as int]@
        } else {
            Seq::<char>::empty()
        },
{
    if index < attributes.len() {
        attributes[index].clone()
    } else {
        String::new()
    }
}

/// The attributes of an edge: none.
fn no_attributes() -> (text: String)
    ensures
        text@ == Seq::<char>::empty(),
{
    String::new()
}

/// `petgraph::dot::Dot::with_attr_getters` and its `Display`: the Graphviz
/// text of the graph with edge labels switched off, where the node with
/// index `i` gets `attributes[i]` and no edge gets attributes. The text
/// depends on nothing but the node weights, these attributes and the ends
/// of the edges.
#[verifier::external_body]
fn graph_to_dot(graph: &DiGraph<String, String>, attributes: &Vec<String>) -> (text: String)
    requires
        attributes@.len() == graph_nodes(*graph).len(),
    ensures
        text@ == dot_text(graph_nodes(*graph), texts(attributes@), graph_edges(*graph)),
{
    Dot::with_attr_getters(
        graph,
        &[Config::EdgeNoLabel],
        &|_, _| no_attributes(),
        &|_, node| attributes_at(attributes, node.0.index()),
    ).to_string()
}

/// The word Graphviz knows a shape by.
pub open spec fn shape_name(shape: Shape) -> Seq<char> {
    match shape {
        Shape::Rectangle => "rectangle"@,
        Shape::Circle => "circle"@,
    }
}

/// A box in words: `label=` and its label, then `, shape=` and its shape.
pub open spec fn description(node: BoxModel) -> Seq<char> {
    "label="@ + node.label + ", shape="@ + shape_name(node.shape)
}

/// The Graphviz attributes of a box: its label between double quotes, and
/// its shape.
pub open spec fn attribute_text(node: BoxModel) -> Seq<char> {
    "label=\""@ + node.label + "\" shape="@ + shape_name(node.shape)
}

/// The descriptions of a run of boxes, in the same order.
pub open spec fn descriptions(nodes: Seq<BoxModel>) -> Seq<Seq<char>> {
    nodes.map_values(|node: BoxModel| description(node))
}

/// The attributes of a run of boxes, in the same order.
pub open spec fn attribute_texts(nodes: Seq<BoxModel>) -> Seq<Seq<char>> {
    nodes.map_values(|node: BoxModel| attribute_text(node))
}

/// The place of the first box named `id`.
pub open spec fn place(names: Seq<VisualId>, id: VisualId) -> int {
    names.index_of_first(id).unwrap()
}

/// The places of the two ends of an arrow.
pub open spec fn ends(names: Seq<VisualId>) -> spec_fn(VisualEdge) -> (int, int) {
    |arrow: VisualEdge| (place(names, arrow.from), place(names, arrow.to))
}

/// The arrows of a diagram as pairs of places among its boxes.
pub open spec fn endpoints(diagram: DiagramModel) -> Seq<(int, int)> {
    diagram.edges.map_values(ends(ids(diagram.nodes)))
}

/// The Graphviz text of a diagram: each box is a node that carries its
/// description as the label and its attributes behind it, each arrow an
/// edge without a label.
pub open spec fn serialized(diagram: DiagramModel) -> Seq<char> {
    dot_text(descriptions(diagram.nodes), attribute_texts(diagram.nodes), endpoints(diagram))
}

/// The most boxes, and the most arrows, that a diagram can be drawn with.
pub const MAX_ITEMS: usize = 0xFFFF_FFFF;

/// The diagram is small enough to draw.
pub open spec fn fits(diagram: DiagramModel) -> bool {
    diagram.nodes.len() <= MAX_ITEMS && diagram.edges.len() <= MAX_ITEMS
}

/// The arrow at `arrow` has an end that is no box of the diagram, and it
/// is the first such arrow.
pub open spec fn first_loose_arrow(diagram: DiagramModel, arrow: int) -> bool {
    let names = ids(diagram.nodes);
    &&& 0 <= arrow < diagram.edges.len()
    &&& !(names.contains(diagram.edges[arrow].from) && names.contains(diagram.edges[arrow].to))
    &&& forall|j: int|
        0 <= j < arrow ==> names.contains((#[trigger] diagram.edges[j]).from) && names.contains(
            diagram.edges[j].to,
        )
}

/// Why a diagram cannot be drawn.
#[derive(Debug, Clone, Copy, PartialEq, Eq, Structural)]
pub enum RenderError {
    /// More than [`MAX_ITEMS`] boxes, or more than that many arrows.
    TooLarge,
    /// The arrow at this position starts or ends at a name that no box has.
    LooseArrow { arrow: usize },
}

impl Shape {
    /// The word Graphviz knows the shape by.
    pub fn name(&self) -> (name: &'static str)
        ensures
            name@ == shape_name(*self),
    {
        match self {
            Shape::Rectangle => "rectangle",
            Shape::Circle => "circle",
        }
    }
}

impl VisualNode {
    /// The box in words, as `label=<label>, shape=<shape>`.
    pub fn describe(&self) -> (text: String)
        ensures
            text@ == description(self@),
    {
        String::from_str("label=").concat(self.label.as_str()).concat(", shape=").concat(
            self.shape.name(),
        )
    }

    /// The Graphviz attributes of the box, as `label="<label>" shape=<shape>`.
    pub fn attributes(&self) -> (text: String)
        ensures
            text@ == attribute_text(self@),
    {
        String::from_str("label=\"").concat(self.label.as_str()).concat("\" shape=").concat(
            self.shape.name(),
        )
    }
}

/// The place of the first of `nodes` that is named `id`.
pub fn find_box(nodes: &Vec<VisualNode>, id: VisualId) -> (found: Option<usize>)
    ensures
        match found {
            Some(at) => ids(box_models(nodes@)).index_of_first(id) == Some(at as int),
            None => !ids(box_models(nodes@)).contains(id),
        },
{
    let ghost names = ids(box_models(nodes@));
    let mut i: usize = 0;
    while i < nodes.len()
        invariant
            i <= nodes@.len(),
            names == ids(box_models(nodes@)),
            forall|j: int| 0 <= j < i ==> names[j] != id,
        decreases nodes@.len() - i,
    {
        if nodes[i].id == id {
            proof {
                names.index_of_first_ensures(id);
                assert(names[i as int] == id);
            }
            return Some(i);
        }
        i += 1;
    }
    None
}

/// The Graphviz text of a diagram, for a diagram that is small enough and
/// whose arrows all start and end at boxes it holds. Where two boxes share
/// a name, an arrow goes to the first.
pub fn to_dot(diagram: &AbstractDiagram) -> (outcome: Result<String, RenderError>)
    ensures
        match outcome {
            Ok(text) => fits(diagram@) && is_closed(diagram@) && text@ == serialized(diagram@),
            Err(RenderError::TooLarge) => !fits(diagram@),
            Err(RenderError::LooseArrow { arrow }) => fits(diagram@) && first_loose_arrow(
                diagram@,
                arrow as int,
            ),
        },
{
    if diagram.nodes.len() > MAX_ITEMS || diagram.edges.len() > MAX_ITEMS {
        return Err(RenderError::TooLarge);
    }
    let ghost boxes = diagram@.nodes;
    let ghost names = ids(boxes);
    let mut graph = graph_new();
    let mut attributes: Vec<String> = Vec::new();
    let mut i: usize = 0;
    proof {
        assert(boxes.take(0) =~= Seq::<BoxModel>::empty());
        assert(descriptions(boxes.take(0)) =~= Seq::<Seq<char>>::empty());
        assert(texts(attributes@) =~= attribute_texts(boxes.take(0)));
    }
    while i < diagram.nodes.len()
        invariant
            i <= diagram.nodes@.len() <= MAX_ITEMS,
            boxes == box_models(diagram.nodes@),
            graph_nodes(graph) == descriptions(boxes.take(i as int)),
            graph_edges(graph) == Seq::<(int, int)>::empty(),
            texts(attributes@) == attribute_texts(boxes.take(i as int)),
        decreases diagram.nodes@.len() - i,
    {
        let node = &diagram.nodes[i];
        let ghost attributes_before = texts(attributes@);
        graph_add_node(&mut graph, node.describe());
        attributes.push(node.attributes());
        proof {
            assert(boxes.take(i + 1) =~= boxes.take(i as int).push(node@));
            assert(descriptions(boxes.take(i + 1)) =~= descriptions(boxes.take(i as int)).push(
                description(node@),
            ));
            assert(texts(attributes@) =~= attributes_before.push(attribute_text(node@)));
            assert(attribute_texts(boxes.take(i + 1)) =~= attribute_texts(
                boxes.take(i as int),
            ).push(attribute_text(node@)));
        }
        i += 1;
    }
    proof {
        assert(boxes.take(i as int) =~= boxes);
        assert(diagram@.edges.take(0).map_values(ends(names)) =~= Seq::<(int, int)>::empty());
    }
    let mut k: usize = 0;
    while k < diagram.edges.len()
        invariant
            k <= diagram.edges@.len() <= MAX_ITEMS,
            diagram.nodes@.len() <= MAX_ITEMS,
            boxes == box_models(diagram.nodes@),
            names == ids(boxes),
            graph_nodes(graph) == descriptions(boxes),
            graph_edges(graph) == diagram.edges@.take(k as int).map_values(ends(names)),
            texts(attributes@) == attribute_texts(boxes),
            forall|j: int|
                0 <= j < k ==> names.contains((#[trigger] diagram.edges@[j]).from)
                    && names.contains(diagram.edges@[j].to),
        decreases diagram.edges@.len() - k,
    {
        let arrow = diagram.edges[k];
        let from = find_box(&diagram.nodes, arrow.from);
        let to = find_box(&diagram.nodes, arrow.to);
        proof {
            names.index_of_first_ensures(arrow.from);
            names.index_of_first_ensures(arrow.to);
        }
        match (from, to) {
            (Some(a), Some(b)) => {
                graph_add_edge(&mut graph, a, b);
                proof {
                    let done = diagram.edges@.take(k as int);
                    assert(diagram.edges@.take(k + 1) =~= done.push(arrow));
                    assert(done.push(arrow).map_values(ends(names)) =~= done.map_values(
                        ends(names),
                    ).push((a as int, b as int)));
                }
            },
            _ => {
                return Err(RenderError::LooseArrow { arrow: k });
            },
        }
        k += 1;
    }
    proof {
        assert(diagram.edges@.take(k as int) =~= diagram.edges@);
    }
    Ok(graph_to_dot(&graph, &attributes))
}

/// What the drawing program is asked to do: `document` is written to
/// `document_path`, then `program` is run with `arguments` and leaves the
/// image at `output_path`.
#[derive(Debug, Clone, PartialEq, Eq)]
pub struct RenderJob {
    pub document: String,
    pub document_path: String,
    pub program: String,
    pub arguments: Vec<String>,
    pub output_path: String,
}

/// What a [`RenderJob`] is in specifications.
pub ghost struct JobModel {
    pub document: Seq<char>,
    pub document_path: Seq<char>,
    pub program: Seq<char>,
    pub arguments: Seq<Seq<char>>,
    pub output_path: Seq<char>,
}

impl View for RenderJob {
    type V = JobModel;

    open spec fn view(&self) -> JobModel {
        JobModel {
            document: self.document@,
            document_path: self.document_path@,
            program: self.program@,
            arguments: texts(self.arguments@),
            output_path: self.output_path@,
        }
    }
}

/// The job that draws `diagram` as a vector image at `output_path`: the
/// Graphviz text goes to `graph.dot`, and `dot` turns that file into SVG.
pub open spec fn planned(diagram: DiagramModel, output_path: Seq<char>) -> JobModel {
    JobModel {
        document: serialized(diagram),
        document_path: "graph.dot"@,
        program: "dot"@,
        arguments: seq!["-Tsvg"@, "graph.dot"@, "-o"@, output_path],
        output_path,
    }
}

/// Prepares the drawing of `diagram` at `output_path`, whatever the path.
/// Nothing is written or run here: the job says what to write and what to
/// run, and hands the path on as it came.
pub fn plan_render(diagram: &AbstractDiagram, output_path: &str) -> (outcome: Result<
    RenderJob,
    RenderError,
>)
    ensures
        match outcome {
            Ok(job) => {
                &&& fits(diagram@)
                &&& is_closed(diagram@)
                &&& job@ == planned(diagram@, output_path@)
            },
            Err(RenderError::TooLarge) => !fits(diagram@),
            Err(RenderError::LooseArrow { arrow }) => {
                &&& fits(diagram@)
                &&& first_loose_arrow(diagram@, arrow as int)
            },
        },
{
    match to_dot(diagram) {
        Ok(document) => {
            let mut arguments: Vec<String> = Vec::new();
            arguments.push(String::from_str("-Tsvg"));
            arguments.push(String::from_str("graph.dot"));
            arguments.push(String::from_str("-o"));
            arguments.push(String::from_str(output_path));
            let job = RenderJob {
                document,
                document_path: String::from_str("graph.dot"),
                program: String::from_str("dot"),
                arguments,
                output_path: String::from_str(output_path),
            };
            proof {
                assert(job@.arguments =~= planned(diagram@, output_path@).arguments);
            }
            Ok(job)
        },
        Err(error) => Err(error),
    }
}

/// How a drawing ended.
#[derive(Debug, Clone, PartialEq, Eq)]
pub enum RenderResult {
    /// The image is at `output_path`.
    Success { output_path: String },
    /// No image was made; `message` is what the drawing program said.
    Failure { message: String },
}

/// What the end of a job amounts to: a success with the job's output path
/// when the drawing program reported success, and otherwise a failure that
/// carries the program's diagnostics as they came.
pub fn conclude_render(job: &RenderJob, succeeded: bool, diagnostics: String) -> (outcome:
    RenderResult)
    ensures
        match outcome {
            RenderResult::Success { output_path } => succeeded && output_path@ == job@.output_path,
            RenderResult::Failure { message } => !succeeded && message == diagnostics,
        },
{
    if succeeded {
        RenderResult::Success { output_path: job.output_path.clone() }
    } else {
        RenderResult::Failure { message: diagnostics }
    }
}

/// How far the run of a job got: the document could not be written, or it
/// was written and the drawing program could not be started, or the
/// program ran and exited.
#[derive(Debug, Clone, PartialEq, Eq)]
pub enum RunOutcome {
    /// Writing the document failed; `message` says why.
    WriteFailed { message: String },
    /// The drawing program did not start; `message` says why.
    StartFailed { message: String },
    /// The drawing program ran to its end, with or without success, and
    /// wrote `diagnostics` to its error stream.
    Exited { succeeded: bool, diagnostics: String },
}

/// The drawing program ran to its end and reported success.
pub open spec fn ran_well(outcome: RunOutcome) -> bool {
    outcome matches RunOutcome::Exited { succeeded, .. } && succeeded
}

/// What a run amounts to, given how far it got: whether it is a success,
/// and the text that the result carries.
pub open spec fn concluded(job: JobModel, outcome: RunOutcome) -> (bool, Seq<char>) {
    match outcome {
        RunOutcome::WriteFailed { message } => (false, message@),
        RunOutcome::StartFailed { message } => (false, message@),
        RunOutcome::Exited { succeeded, diagnostics } => if succeeded {
            (true, job.output_path)
        } else {
            (false, diagnostics@)
        },
    }
}

/// What the run of a job amounts to. It is a success, with the job's output
/// path, exactly when the document was written, the drawing program
/// started and it reported success. In every other case it is a failure
/// that carries the message of the step that failed as it came: the
/// program's diagnostics, or why the write or the start failed.
pub fn conclude_run(job: &RenderJob, outcome: RunOutcome) -> (result: RenderResult)
    ensures
        match result {
            RenderResult::Success { output_path } => concluded(job@, outcome) == (
                true,
                output_path@,
            ),
            RenderResult::Failure { message } => concluded(job@, outcome) == (false, message@),
        },
        result is Success <==> ran_well(outcome),
{
    match outcome {
        RunOutcome::WriteFailed { message } => RenderResult::Failure { message },
        RunOutcome::StartFailed { message } => RenderResult::Failure { message },
        RunOutcome::Exited { succeeded, diagnostics } => conclude_render(job, succeeded, diagnostics),
    }
}

/// The line that tells a user how a drawing ended.
pub open spec fn report_text(outcome: RenderResult) -> Seq<char> {
    match outcome {
        RenderResult::Success { output_path } => "SVG generated at "@ + output_path@,
        RenderResult::Failure { message } => "Error: "@ + message@,
    }
}

impl RenderResult {
    /// The line that tells a user how the drawing ended.
    pub fn report(&self) -> (line: String)
        ensures
            line@ == report_text(*self),
    {
        match self {
            RenderResult::Success { output_path } => String::from_str("SVG generated at ").concat(
                output_path.as_str(),
            ),
            RenderResult::Failure { message } => String::from_str("Error: ").concat(
                message.as_str(),
            ),
        }
    }
}

} // verus!
