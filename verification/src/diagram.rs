//! A diagram of the verification graph.
//!
//! The diagram is a list of statements in the manner of Graphviz: nodes,
//! edges and attributes, and clusters that hold such statements. A signal is
//! a node whose colour tells its kind; a fixed signal is filled. An active
//! safe assignment is a red edge towards the signal that it assigns, an
//! active unsafe constraint a green edge without direction. What belongs to
//! the polynomial system at hand is set off in another colour. Drawing the
//! diagram is left to others.

use crate::input_data::InputDataContextView;
use crate::numbers::{decimal_nat, usize_to_string};
use crate::signal_set::{
    all_keys, lemma_sorted_keys, map_keys, set_to_vec, set_within_keys, sorted_keys,
};
use crate::text::{after_first_dot, strip_first_component};
use crate::verification_graph::{GraphModel, Node, VerificationGraph};

use vstd::prelude::*;
use vstd::string::*;

verus! {

/// An attribute of a node, an edge or a graph.
pub struct Attribute {
    pub name: String,
    pub value: String,
    /// Whether the value is to be written between double quotes.
    pub quoted: bool,
}

/// A statement that a cluster can hold.
pub enum ClusterStatement {
    Node { id: String, attributes: Vec<Attribute> },
    Edge { from: String, to: String, attributes: Vec<Attribute> },
    Attribute(Attribute),
    /// Attributes for every node of the cluster.
    NodeDefaults(Vec<Attribute>),
}

/// A statement of a diagram.
pub enum Statement {
    Node { id: String, attributes: Vec<Attribute> },
    Edge { from: String, to: String, attributes: Vec<Attribute> },
    Attribute(Attribute),
    /// A cluster with its statements; the identifier is written between
    /// double quotes.
    Subgraph { id: String, statements: Vec<ClusterStatement> },
}

/// A directed graph to be drawn.
pub struct Diagram {
    pub id: String,
    pub statements: Vec<Statement>,
}

/// An attribute as mathematics sees it.
#[verifier::ext_equal]
pub struct AttributeModel {
    pub name: Seq<char>,
    pub value: Seq<char>,
    pub quoted: bool,
}

/// A statement of a cluster as mathematics sees it.
#[verifier::ext_equal]
pub enum ClusterStatementModel {
    Node { id: Seq<char>, attributes: Seq<AttributeModel> },
    Edge { from: Seq<char>, to: Seq<char>, attributes: Seq<AttributeModel> },
    Attribute(AttributeModel),
    NodeDefaults(Seq<AttributeModel>),
}

/// A statement of a diagram as mathematics sees it.
#[verifier::ext_equal]
pub enum StatementModel {
    Node { id: Seq<char>, attributes: Seq<AttributeModel> },
    Edge { from: Seq<char>, to: Seq<char>, attributes: Seq<AttributeModel> },
    Attribute(AttributeModel),
    Subgraph { id: Seq<char>, statements: Seq<ClusterStatementModel> },
}

impl View for Attribute {
    type V = AttributeModel;

    open spec fn view(&self) -> AttributeModel {
        AttributeModel { name: self.name@, value: self.value@, quoted: self.quoted }
    }
}

/// The attributes as mathematics sees them.
pub open spec fn attribute_models(attributes: Seq<Attribute>) -> Seq<AttributeModel> {
    attributes.map_values(|a: Attribute| a@)
}

impl View for ClusterStatement {
    type V = ClusterStatementModel;

    open spec fn view(&self) -> ClusterStatementModel {
        match self {
            ClusterStatement::Node { id, attributes } => ClusterStatementModel::Node {
                id: id@,
                attributes: attribute_models(attributes@),
            },
            ClusterStatement::Edge { from, to, attributes } => ClusterStatementModel::Edge {
                from: from@,
                to: to@,
                attributes: attribute_models(attributes@),
            },
            ClusterStatement::Attribute(a) => ClusterStatementModel::Attribute(a@),
            ClusterStatement::NodeDefaults(attributes) => ClusterStatementModel::NodeDefaults(
                attribute_models(attributes@),
            ),
        }
    }
}

/// The statements of a cluster as mathematics sees them.
pub open spec fn cluster_models(statements: Seq<ClusterStatement>) -> Seq<ClusterStatementModel> {
    statements.map_values(|s: ClusterStatement| s@)
}

impl View for Statement {
    type V = StatementModel;

    open spec fn view(&self) -> StatementModel {
        match self {
            Statement::Node { id, attributes } => StatementModel::Node {
                id: id@,
                attributes: attribute_models(attributes@),
            },
            Statement::Edge { from, to, attributes } => StatementModel::Edge {
                from: from@,
                to: to@,
                attributes: attribute_models(attributes@),
            },
            Statement::Attribute(a) => StatementModel::Attribute(a@),
            Statement::Subgraph { id, statements } => StatementModel::Subgraph {
                id: id@,
                statements: cluster_models(statements@),
            },
        }
    }
}

/// The statements as mathematics sees them.
pub open spec fn statement_models(statements: Seq<Statement>) -> Seq<StatementModel> {
    statements.map_values(|s: Statement| s@)
}

/// An attribute whose value is written as it is.
pub open spec fn plain(name: Seq<char>, value: Seq<char>) -> AttributeModel {
    AttributeModel { name, value, quoted: false }
}

/// An attribute whose value is written between double quotes.
pub open spec fn quoted(name: Seq<char>, value: Seq<char>) -> AttributeModel {
    AttributeModel { name, value, quoted: true }
}

/// The attributes that fill a fixed node.
pub open spec fn fixed_attributes() -> Seq<AttributeModel> {
    seq![
        plain("style"@, "filled"@),
        plain("fillcolor"@, "firebrick4"@),
        plain("fontcolor"@, "white"@),
    ]
}

/// The colour of a node: that of the polynomial system at hand if it
/// belongs to it, else `usual`.
pub open spec fn node_colour(g: GraphModel, signal: usize, usual: Seq<char>) -> Seq<char> {
    if g.highlight.nodes.contains(signal) {
        "fuchsia"@
    } else {
        usual
    }
}

/// The attributes of the node of a signal: its name, its colour, its shape
/// where it has one, and the filling where it is fixed.
pub open spec fn signal_attributes(
    g: GraphModel,
    context: &InputDataContextView,
    signal: usize,
    usual: Seq<char>,
    diamond: bool,
) -> Seq<AttributeModel> {
    let base = seq![
        quoted("label"@, context.signal_name_map@[signal]@),
        quoted("color"@, node_colour(g, signal, usual)),
    ];
    let shaped = if diamond {
        base.push(plain("shape"@, "Mdiamond"@))
    } else {
        base
    };
    if g.fixed_nodes.contains(signal) {
        shaped + fixed_attributes()
    } else {
        shaped
    }
}

/// The attributes of a node that is not to be seen.
pub open spec fn hidden_attributes() -> Seq<AttributeModel> {
    seq![plain("shape"@, "none"@), quoted("label"@, ""@)]
}

/// The statements for a signal of the component itself. An input has an
/// edge that comes from nowhere, an output one that leads nowhere.
pub open spec fn own_signal_statements(
    g: GraphModel,
    context: &InputDataContextView,
    signal: usize,
) -> Seq<StatementModel> {
    let id = decimal_nat(signal as nat);
    match g.nodes[signal] {
        Node::OutputSignal => seq![
            StatementModel::Node {
                id,
                attributes: signal_attributes(g, context, signal, "orange"@, true),
            },
            StatementModel::Node { id: "output_dummy_"@ + id, attributes: hidden_attributes() },
            StatementModel::Edge { from: id, to: "output_dummy_"@ + id, attributes: Seq::empty() },
        ],
        Node::InputSignal => seq![
            StatementModel::Node {
                id,
                attributes: signal_attributes(g, context, signal, "orange"@, true),
            },
            StatementModel::Node { id: "input_dummy_"@ + id, attributes: hidden_attributes() },
            StatementModel::Edge { from: "input_dummy_"@ + id, to: id, attributes: Seq::empty() },
        ],
        Node::IntermediateSignal => seq![
            StatementModel::Node {
                id,
                attributes: signal_attributes(g, context, signal, "black"@, false),
            },
        ],
        _ => Seq::empty(),
    }
}

/// The statements for the given signals as signals of the component itself.
pub open spec fn own_signals_statements(
    g: GraphModel,
    context: &InputDataContextView,
    signals: Seq<usize>,
) -> Seq<StatementModel>
    decreases signals.len(),
{
    if signals.len() == 0 {
        Seq::empty()
    } else {
        own_signals_statements(g, context, signals.drop_last()) + own_signal_statements(
            g,
            context,
            signals.last(),
        )
    }
}

/// The name of the point through which the edges of a cluster run.
pub open spec fn hub_name(component: usize) -> Seq<char> {
    "dummy_"@ + decimal_nat(component as nat)
}

/// The statements for the output ports of a cluster.
pub open spec fn output_port_statements(
    g: GraphModel,
    context: &InputDataContextView,
    component: usize,
    draw_edges: bool,
    ports: Seq<usize>,
) -> Seq<ClusterStatementModel>
    decreases ports.len(),
{
    if ports.len() == 0 {
        Seq::empty()
    } else {
        let before = output_port_statements(g, context, component, draw_edges, ports.drop_last());
        let id = decimal_nat(ports.last() as nat);
        let node = ClusterStatementModel::Node {
            id,
            attributes: signal_attributes(g, context, ports.last(), "blue"@, false),
        };
        if draw_edges {
            before.push(node).push(
                ClusterStatementModel::Edge {
                    from: hub_name(component),
                    to: id,
                    attributes: Seq::empty(),
                },
            )
        } else {
            before.push(node)
        }
    }
}

/// The statements for the input ports of a cluster.
pub open spec fn input_port_statements(
    g: GraphModel,
    context: &InputDataContextView,
    component: usize,
    draw_edges: bool,
    ports: Seq<usize>,
) -> Seq<ClusterStatementModel>
    decreases ports.len(),
{
    if ports.len() == 0 {
        Seq::empty()
    } else {
        let before = input_port_statements(g, context, component, draw_edges, ports.drop_last());
        let id = decimal_nat(ports.last() as nat);
        let node = ClusterStatementModel::Node {
            id,
            attributes: signal_attributes(g, context, ports.last(), "green"@, false),
        };
        if draw_edges {
            before.push(node).push(
                ClusterStatementModel::Edge {
                    from: id,
                    to: hub_name(component),
                    attributes: seq![plain("dir"@, "none"@)],
                },
            )
        } else {
            before.push(node)
        }
    }
}

/// The caption of the cluster of a component below: its name without the
/// name of the component above, and its template.
pub open spec fn cluster_caption(context: &InputDataContextView, component: usize) -> Seq<char> {
    let below = context.tree_constraints.subcomponents@[component as int];
    after_first_dot(below.component_name@) + ": "@ + below.template_name@
}

/// The cluster of a component below. Edges are drawn inside it only if it
/// has both inputs and outputs.
pub open spec fn cluster_statement(
    g: GraphModel,
    context: &InputDataContextView,
    component: usize,
) -> StatementModel {
    let ports = g.subcomponents[component];
    let inputs = sorted_keys(ports.input_signals);
    let outputs = sorted_keys(ports.output_signals);
    let draw_edges = inputs.len() > 0 && outputs.len() > 0;
    let head = seq![
        ClusterStatementModel::Attribute(plain("style"@, "filled"@)),
        ClusterStatementModel::Attribute(plain("color"@, "lightgrey"@)),
        ClusterStatementModel::Attribute(quoted("label"@, cluster_caption(context, component))),
        ClusterStatementModel::NodeDefaults(
            seq![plain("style"@, "filled"@), plain("fillcolor"@, "white"@)],
        ),
    ];
    let hub = if draw_edges {
        seq![
            ClusterStatementModel::Node {
                id: hub_name(component),
                attributes: seq![plain("shape"@, "point"@), plain("fontname"@, "Courier"@)],
            },
        ]
    } else {
        Seq::empty()
    };
    StatementModel::Subgraph {
        id: "cluster_"@ + decimal_nat(component as nat),
        statements: head + hub + output_port_statements(g, context, component, draw_edges, outputs)
            + input_port_statements(g, context, component, draw_edges, inputs),
    }
}

/// The clusters of the given components below.
pub open spec fn cluster_statements(
    g: GraphModel,
    context: &InputDataContextView,
    components: Seq<usize>,
) -> Seq<StatementModel> {
    Seq::new(components.len(), |i: int| cluster_statement(g, context, components[i]))
}

/// The edges from the signals of a right-hand side to the point where
/// they meet.
pub open spec fn gathering_edges(signals: Seq<usize>, point: Seq<char>, colour: Seq<char>) -> Seq<
    StatementModel,
> {
    Seq::new(
        signals.len(),
        |i: int|
            StatementModel::Edge {
                from: decimal_nat(signals[i] as nat),
                to: point,
                attributes: seq![quoted("color"@, colour)],
            },
    )
}

/// The statements for the safe assignment at position `index`: none if it
/// is not active; one edge if one signal alone defines the assigned
/// signal; else a point where the defining signals meet, with its edges.
pub open spec fn safe_assignment_statements(g: GraphModel, index: int) -> Seq<StatementModel> {
    let assignment = g.safe_assignments[index];
    let colour = if g.highlight.safe_assignments.contains(index as usize) {
        "fuchsia:fuchsia"@
    } else {
        "red"@
    };
    let lhs = decimal_nat(assignment.lhs_signal as nat);
    let rhs = sorted_keys(assignment.rhs_signals);
    if !assignment.active {
        Seq::empty()
    } else if rhs.len() == 1 {
        seq![
            StatementModel::Edge {
                from: decimal_nat(rhs[0] as nat),
                to: lhs,
                attributes: seq![
                    quoted("label"@, " <=="@),
                    plain("fontname"@, "Courier"@),
                    quoted("color"@, colour),
                ],
            },
        ]
    } else {
        let point = "safe_assign_"@ + lhs;
        seq![
            StatementModel::Node {
                id: point,
                attributes: seq![
                    plain("shape"@, "point"@),
                    plain("fontname"@, "Courier"@),
                    quoted("xlabel"@, "<=="@),
                ],
            },
            StatementModel::Edge { from: point, to: lhs, attributes: seq![quoted("color"@, colour)] },
        ] + gathering_edges(rhs, point, colour)
    }
}

/// The statements for the first `count` safe assignments.
pub open spec fn safe_assignments_statements(g: GraphModel, count: nat) -> Seq<StatementModel>
    decreases count,
{
    if count == 0 {
        Seq::empty()
    } else {
        safe_assignments_statements(g, (count - 1) as nat) + safe_assignment_statements(
            g,
            count - 1,
        )
    }
}

/// The edges between the signals of an unsafe constraint and its point.
/// An input of the component is where an edge begins; any other signal is
/// where it ends.
pub open spec fn scattering_edges(
    context: &InputDataContextView,
    signals: Seq<usize>,
    point: Seq<char>,
    colour: Seq<char>,
) -> Seq<StatementModel> {
    Seq::new(
        signals.len(),
        |i: int|
            {
                let id = decimal_nat(signals[i] as nat);
                let attributes = seq![plain("dir"@, "none"@), quoted("color"@, colour)];
                if context.tree_constraints.is_input(signals[i]) {
                    StatementModel::Edge { from: id, to: point, attributes }
                } else {
                    StatementModel::Edge { from: point, to: id, attributes }
                }
            },
    )
}

/// The statements for the unsafe constraint at position `index`: none if
/// it is not active; a loop if it has one signal; else a point with an edge
/// for each of its signals.
pub open spec fn unsafe_constraint_statements(
    g: GraphModel,
    context: &InputDataContextView,
    index: int,
) -> Seq<StatementModel> {
    let constraint = g.unsafe_constraints[index];
    let colour = if g.highlight.unsafe_constraints.contains(index as usize) {
        "deeppink:fuchsia:fuchsia:deeppink"@
    } else {
        "green"@
    };
    let signals = sorted_keys(constraint.signals);
    if !constraint.active {
        Seq::empty()
    } else if signals.len() == 1 {
        seq![
            StatementModel::Edge {
                from: decimal_nat(signals[0] as nat),
                to: decimal_nat(signals[0] as nat),
                attributes: seq![
                    plain("dir"@, "none"@),
                    quoted("color"@, colour),
                    quoted("label"@, " ==="@),
                    plain("fontname"@, "Courier"@),
                ],
            },
        ]
    } else {
        let point = "constraint_"@ + decimal_nat(constraint.associated_constraint as nat);
        seq![
            StatementModel::Node {
                id: point,
                attributes: seq![plain("shape"@, "point"@), quoted("xlabel"@, " ==="@)],
            },
        ] + scattering_edges(context, signals, point, colour)
    }
}

/// The statements for the first `count` unsafe constraints.
pub open spec fn unsafe_constraints_statements(
    g: GraphModel,
    context: &InputDataContextView,
    count: nat,
) -> Seq<StatementModel>
    decreases count,
{
    if count == 0 {
        Seq::empty()
    } else {
        unsafe_constraints_statements(g, context, (count - 1) as nat)
            + unsafe_constraint_statements(g, context, count - 1)
    }
}

/// The statements that put a title above the diagram.
pub open spec fn title_statements(title: Option<Seq<char>>) -> Seq<StatementModel> {
    match title {
        Some(text) => seq![
            StatementModel::Attribute(quoted("label"@, text)),
            StatementModel::Attribute(plain("labelloc"@, "t"@)),
        ],
        None => Seq::empty(),
    }
}

/// The statements of the diagram of a graph: the signals of the component
/// in ascending order, the clusters of the components below, the safe
/// assignments, the unsafe constraints, and the title.
pub open spec fn diagram_statements(
    g: GraphModel,
    context: &InputDataContextView,
    title: Option<Seq<char>>,
) -> Seq<StatementModel> {
    own_signals_statements(g, context, sorted_keys(g.nodes.dom())) + cluster_statements(
        g,
        context,
        sorted_keys(g.subcomponents.dom()),
    ) + safe_assignments_statements(g, g.safe_assignments.len()) + unsafe_constraints_statements(
        g,
        context,
        g.unsafe_constraints.len(),
    ) + title_statements(title)
}

/// The diagram can be made: every signal that it names has a name, each
/// component below is one of the tree, and the ports of the component are
/// indices that a machine integer holds.
pub open spec fn can_draw(g: GraphModel, context: &InputDataContextView) -> bool {
    &&& forall|s: usize| g.nodes.contains_key(s) ==> #[trigger] context.signal_name_map@.contains_key(s)
    &&& forall|k: usize| #[trigger]
        g.subcomponents.contains_key(k) ==> k < context.tree_constraints.subcomponents@.len() && (
        forall|s: usize| #[trigger]
            g.subcomponents[k].input_signals.contains(s)
                ==> context.signal_name_map@.contains_key(s)) && (forall|s: usize| #[trigger]
            g.subcomponents[k].output_signals.contains(s)
                ==> context.signal_name_map@.contains_key(s))
    &&& context.tree_constraints.ports_in_bounds()
}

/// Whether the diagram of the graph can be made.
pub fn check_can_draw(graph: &VerificationGraph, context: &InputDataContextView) -> (r: bool)
    ensures
        r == can_draw(graph@, context),
{
    let tree = context.tree_constraints;
    let in_bounds = match tree.initial_signal.checked_add(tree.number_outputs) {
        Some(sum) => sum.checked_add(tree.number_inputs).is_some(),
        None => false,
    };
    if !in_bounds {
        return false;
    }
    let signals = map_keys(&graph.nodes);
    if !all_keys(&signals, context.signal_name_map) {
        proof {
            let i = choose|i: int|
                0 <= i < signals@.len() && !context.signal_name_map@.contains_key(
                    #[trigger] signals@[i],
                );
            assert(signals@.contains(signals@[i]));
            assert(signals@.to_set().contains(signals@[i]));
            assert(graph@.nodes.contains_key(signals@[i]));
        }
        return false;
    }
    proof {
        assert forall|s: usize| graph@.nodes.contains_key(s) implies #[trigger] context.signal_name_map@.contains_key(
            s,
        ) by {
            assert(signals@.to_set().contains(s));
            assert(signals@.contains(s));
            let i = choose|i: int| 0 <= i < signals@.len() && signals@[i] == s;
            assert(context.signal_name_map@.contains_key(signals@[i]));
        }
    }
    let components = map_keys(&graph.subcomponents);
    let mut k: usize = 0;
    while k < components.len()
        invariant
            k <= components@.len(),
            tree == context.tree_constraints,
            components@.to_set() == graph.subcomponents@.dom(),
            forall|m: int|
                0 <= m < k ==> (#[trigger] components@[m]) < tree.subcomponents@.len() && (
                forall|s: usize| #[trigger]
                    graph@.subcomponents[components@[m]].input_signals.contains(s)
                        ==> context.signal_name_map@.contains_key(s)) && (forall|s: usize| #[trigger]
                    graph@.subcomponents[components@[m]].output_signals.contains(s)
                        ==> context.signal_name_map@.contains_key(s)),
        decreases components@.len() - k,
    {
        let component = components[k];
        proof {
            assert(components@.contains(component));
            assert(components@.to_set().contains(component));
            assert(graph@.subcomponents.contains_key(component));
        }
        let ports = graph.subcomponents.get(&component).unwrap();
        assert(ports@ == graph@.subcomponents[component]);
        if component >= tree.subcomponents.len() {
            return false;
        }
        if !set_within_keys(&ports.input_signals, context.signal_name_map) {
            proof {
                let s = choose|s: usize|
                    ports.input_signals@.contains(s) && !#[trigger] context.signal_name_map@.contains_key(
                        s,
                    );
                assert(graph@.subcomponents[component].input_signals.contains(s));
            }
            return false;
        }
        if !set_within_keys(&ports.output_signals, context.signal_name_map) {
            proof {
                let s = choose|s: usize|
                    ports.output_signals@.contains(s) && !#[trigger] context.signal_name_map@.contains_key(
                        s,
                    );
                assert(graph@.subcomponents[component].output_signals.contains(s));
            }
            return false;
        }
        k = k + 1;
    }
    proof {
        assert forall|c: usize| #[trigger] graph@.subcomponents.contains_key(c) implies c
            < tree.subcomponents@.len() && (forall|s: usize| #[trigger]
            graph@.subcomponents[c].input_signals.contains(s)
                ==> context.signal_name_map@.contains_key(s)) && (forall|s: usize| #[trigger]
            graph@.subcomponents[c].output_signals.contains(s)
                ==> context.signal_name_map@.contains_key(s)) by {
            assert(graph.subcomponents@.dom().contains(c));
            assert(components@.to_set().contains(c));
            assert(components@.contains(c));
            let m = choose|m: int| 0 <= m < components@.len() && components@[m] == c;
            assert(components@[m] < tree.subcomponents@.len());
        }
    }
    true
}

/// An attribute whose value is written as it stands.
fn plain_attribute(name: &str, value: &str) -> (r: Attribute)
    ensures
        r@ == plain(name@, value@),
{
    Attribute { name: String::from_str(name), value: String::from_str(value), quoted: false }
}

/// An attribute whose value is written between quotes.
fn quoted_attribute(name: &str, value: &str) -> (r: Attribute)
    ensures
        r@ == quoted(name@, value@),
{
    Attribute { name: String::from_str(name), value: String::from_str(value), quoted: true }
}

/// Appends an attribute.
fn push_attribute(attributes: &mut Vec<Attribute>, attribute: Attribute)
    ensures
        attribute_models(final(attributes)@) == attribute_models(old(attributes)@).push(attribute@),
{
    attributes.push(attribute);
    assert(attribute_models(attributes@) =~= attribute_models(old(attributes)@).push(attribute@));
}

/// Appends a statement.
fn push_statement(statements: &mut Vec<Statement>, statement: Statement)
    ensures
        statement_models(final(statements)@) == statement_models(old(statements)@).push(statement@),
{
    statements.push(statement);
    assert(statement_models(statements@) =~~= statement_models(old(statements)@).push(statement@));
}

/// Appends a statement of a cluster.
fn push_cluster_statement(statements: &mut Vec<ClusterStatement>, statement: ClusterStatement)
    ensures
        cluster_models(final(statements)@) == cluster_models(old(statements)@).push(statement@),
{
    statements.push(statement);
    assert(cluster_models(statements@) =~~= cluster_models(old(statements)@).push(statement@));
}

/// Appends statements in their order.
fn append_statements(statements: &mut Vec<Statement>, more: Vec<Statement>)
    ensures
        statement_models(final(statements)@) == statement_models(old(statements)@)
            + statement_models(more@),
{
    let mut more = more;
    let ghost added = statement_models(more@);
    statements.append(&mut more);
    assert(statement_models(statements@) =~~= statement_models(old(statements)@) + added);
}

/// The attributes of the node of a signal.
fn signal_attribute_list(
    graph: &VerificationGraph,
    context: &InputDataContextView,
    signal: usize,
    usual: &str,
    diamond: bool,
) -> (r: Vec<Attribute>)
    requires
        context.signal_name_map@.contains_key(signal),
    ensures
        attribute_models(r@) == signal_attributes(graph@, context, signal, usual@, diamond),
{
    let mut attributes: Vec<Attribute> = Vec::new();
    assert(attribute_models(attributes@) =~= Seq::empty());
    let name = context.signal_name_map.get(&signal).unwrap();
    push_attribute(&mut attributes, quoted_attribute("label", name.as_str()));
    let colour = if graph.debug_polynomial_system_generator_data.nodes.contains(&signal) {
        "fuchsia"
    } else {
        usual
    };
    push_attribute(&mut attributes, quoted_attribute("color", colour));
    if diamond {
        push_attribute(&mut attributes, plain_attribute("shape", "Mdiamond"));
    }
    if graph.fixed_nodes.contains(&signal) {
        let ghost before = attribute_models(attributes@);
        push_attribute(&mut attributes, plain_attribute("style", "filled"));
        push_attribute(&mut attributes, plain_attribute("fillcolor", "firebrick4"));
        push_attribute(&mut attributes, plain_attribute("fontcolor", "white"));
        assert(attribute_models(attributes@) =~= before + fixed_attributes());
    }
    assert(attribute_models(attributes@) =~= signal_attributes(
        graph@,
        context,
        signal,
        usual@,
        diamond,
    ));
    attributes
}

/// The attributes of a node that is not to be seen.
fn hidden_attribute_list() -> (r: Vec<Attribute>)
    ensures
        attribute_models(r@) == hidden_attributes(),
{
    let mut attributes: Vec<Attribute> = Vec::new();
    push_attribute(&mut attributes, plain_attribute("shape", "none"));
    push_attribute(&mut attributes, quoted_attribute("label", ""));
    assert(attribute_models(attributes@) =~= hidden_attributes());
    attributes
}

/// An empty list of attributes.
fn no_attributes() -> (r: Vec<Attribute>)
    ensures
        attribute_models(r@) == Seq::<AttributeModel>::empty(),
{
    let attributes: Vec<Attribute> = Vec::new();
    assert(attribute_models(attributes@) =~= Seq::<AttributeModel>::empty());
    attributes
}

/// The text `prefix` followed by the number `n`.
fn numbered(prefix: &str, n: usize) -> (r: String)
    ensures
        r@ == prefix@ + decimal_nat(n as nat),
{
    let mut r = String::from_str(prefix);
    r.append(usize_to_string(n).as_str());
    r
}

/// The statements for a signal of the component itself.
fn own_signal(graph: &VerificationGraph, context: &InputDataContextView, signal: usize) -> (r: Vec<
    Statement,
>)
    requires
        graph@.nodes.contains_key(signal),
        context.signal_name_map@.contains_key(signal),
    ensures
        statement_models(r@) == own_signal_statements(graph@, context, signal),
{
    let mut statements: Vec<Statement> = Vec::new();
    assert(statement_models(statements@) =~~= Seq::empty());
    let node = *graph.nodes.get(&signal).unwrap();
    match node {
        Node::OutputSignal => {
            let attributes = signal_attribute_list(graph, context, signal, "orange", true);
            push_statement(
                &mut statements,
                Statement::Node { id: usize_to_string(signal), attributes },
            );
            push_statement(
                &mut statements,
                Statement::Node {
                    id: numbered("output_dummy_", signal),
                    attributes: hidden_attribute_list(),
                },
            );
            push_statement(
                &mut statements,
                Statement::Edge {
                    from: usize_to_string(signal),
                    to: numbered("output_dummy_", signal),
                    attributes: no_attributes(),
                },
            );
            assert(statement_models(statements@) =~~= own_signal_statements(
                graph@,
                context,
                signal,
            ));
        },
        Node::InputSignal => {
            let attributes = signal_attribute_list(graph, context, signal, "orange", true);
            push_statement(
                &mut statements,
                Statement::Node { id: usize_to_string(signal), attributes },
            );
            push_statement(
                &mut statements,
                Statement::Node {
                    id: numbered("input_dummy_", signal),
                    attributes: hidden_attribute_list(),
                },
            );
            push_statement(
                &mut statements,
                Statement::Edge {
                    from: numbered("input_dummy_", signal),
                    to: usize_to_string(signal),
                    attributes: no_attributes(),
                },
            );
            assert(statement_models(statements@) =~~= own_signal_statements(
                graph@,
                context,
                signal,
            ));
        },
        Node::IntermediateSignal => {
            let attributes = signal_attribute_list(graph, context, signal, "black", false);
            push_statement(
                &mut statements,
                Statement::Node { id: usize_to_string(signal), attributes },
            );
            assert(statement_models(statements@) =~~= own_signal_statements(
                graph@,
                context,
                signal,
            ));
        },
        _ => {},
    }
    statements
}

/// The cluster of a component below.
fn build_cluster(graph: &VerificationGraph, context: &InputDataContextView, component: usize) -> (r:
    Statement)
    requires
        can_draw(graph@, context),
        graph@.subcomponents.contains_key(component),
    ensures
        r@ == cluster_statement(graph@, context, component),
{
    let ghost g = graph@;
    assert(graph.subcomponents@.contains_key(component));
    let ports = graph.subcomponents.get(&component).unwrap();
    assert(ports@ == g.subcomponents[component]);
    let inputs = set_to_vec(&ports.input_signals);
    let outputs = set_to_vec(&ports.output_signals);
    proof {
        lemma_sorted_keys(inputs@);
        lemma_sorted_keys(outputs@);
    }
    let draw_edges = inputs.len() > 0 && outputs.len() > 0;

    let mut statements: Vec<ClusterStatement> = Vec::new();
    assert(cluster_models(statements@) =~~= Seq::empty());
    push_cluster_statement(
        &mut statements,
        ClusterStatement::Attribute(plain_attribute("style", "filled")),
    );
    push_cluster_statement(
        &mut statements,
        ClusterStatement::Attribute(plain_attribute("color", "lightgrey")),
    );
    let below = &context.tree_constraints.subcomponents[component];
    let mut caption = strip_first_component(below.component_name.as_str());
    caption.append(": ");
    caption.append(below.template_name.as_str());
    push_cluster_statement(
        &mut statements,
        ClusterStatement::Attribute(quoted_attribute("label", caption.as_str())),
    );
    let mut defaults: Vec<Attribute> = Vec::new();
    push_attribute(&mut defaults, plain_attribute("style", "filled"));
    push_attribute(&mut defaults, plain_attribute("fillcolor", "white"));
    push_cluster_statement(&mut statements, ClusterStatement::NodeDefaults(defaults));
    if draw_edges {
        let mut attributes: Vec<Attribute> = Vec::new();
        push_attribute(&mut attributes, plain_attribute("shape", "point"));
        push_attribute(&mut attributes, plain_attribute("fontname", "Courier"));
        push_cluster_statement(
            &mut statements,
            ClusterStatement::Node { id: numbered("dummy_", component), attributes },
        );
    }
    let ghost head = cluster_models(statements@);

    let mut i: usize = 0;
    while i < outputs.len()
        invariant
            i <= outputs@.len(),
            g == graph@,
            outputs@.to_set() == g.subcomponents[component].output_signals,
            can_draw(g, context),
            g.subcomponents.contains_key(component),
            cluster_models(statements@) == head + output_port_statements(
                g,
                context,
                component,
                draw_edges,
                outputs@.take(i as int),
            ),
        decreases outputs@.len() - i,
    {
        let port = outputs[i];
        proof {
            assert(outputs@.contains(port));
            assert(outputs@.to_set().contains(port));
            let upto = outputs@.take(i + 1);
            assert(upto.drop_last() =~= outputs@.take(i as int));
            assert(upto.last() == port);
        }
        let attributes = signal_attribute_list(graph, context, port, "blue", false);
        push_cluster_statement(
            &mut statements,
            ClusterStatement::Node { id: usize_to_string(port), attributes },
        );
        if draw_edges {
            push_cluster_statement(
                &mut statements,
                ClusterStatement::Edge {
                    from: numbered("dummy_", component),
                    to: usize_to_string(port),
                    attributes: no_attributes(),
                },
            );
        }
        assert(cluster_models(statements@) =~~= head + output_port_statements(
            g,
            context,
            component,
            draw_edges,
            outputs@.take(i + 1),
        ));
        i = i + 1;
    }
    assert(outputs@.take(i as int) =~= outputs@);
    let ghost middle = cluster_models(statements@);

    let mut k: usize = 0;
    while k < inputs.len()
        invariant
            k <= inputs@.len(),
            g == graph@,
            inputs@.to_set() == g.subcomponents[component].input_signals,
            can_draw(g, context),
            g.subcomponents.contains_key(component),
            cluster_models(statements@) == middle + input_port_statements(
                g,
                context,
                component,
                draw_edges,
                inputs@.take(k as int),
            ),
        decreases inputs@.len() - k,
    {
        let port = inputs[k];
        proof {
            assert(inputs@.contains(port));
            assert(inputs@.to_set().contains(port));
            let upto = inputs@.take(k + 1);
            assert(upto.drop_last() =~= inputs@.take(k as int));
            assert(upto.last() == port);
        }
        let attributes = signal_attribute_list(graph, context, port, "green", false);
        push_cluster_statement(
            &mut statements,
            ClusterStatement::Node { id: usize_to_string(port), attributes },
        );
        if draw_edges {
            let mut edge_attributes: Vec<Attribute> = Vec::new();
            push_attribute(&mut edge_attributes, plain_attribute("dir", "none"));
            push_cluster_statement(
                &mut statements,
                ClusterStatement::Edge {
                    from: usize_to_string(port),
                    to: numbered("dummy_", component),
                    attributes: edge_attributes,
                },
            );
        }
        assert(cluster_models(statements@) =~~= middle + input_port_statements(
            g,
            context,
            component,
            draw_edges,
            inputs@.take(k + 1),
        ));
        k = k + 1;
    }
    assert(inputs@.take(k as int) =~= inputs@);
    let r = Statement::Subgraph { id: numbered("cluster_", component), statements };
    assert(r@ =~~= cluster_statement(g, context, component));
    r
}

/// The statements for the safe assignment at position `index`.
fn safe_assignment(graph: &VerificationGraph, index: usize) -> (r: Vec<Statement>)
    requires
        index < graph.safe_assignments@.len(),
    ensures
        statement_models(r@) == safe_assignment_statements(graph@, index as int),
{
    let ghost g = graph@;
    let assignment = &graph.safe_assignments[index];
    assert(assignment@ == g.safe_assignments[index as int]);
    let mut statements: Vec<Statement> = Vec::new();
    assert(statement_models(statements@) =~~= Seq::empty());
    if !assignment.active {
        return statements;
    }
    let colour = if graph.debug_polynomial_system_generator_data.safe_assignments.contains(&index) {
        "fuchsia:fuchsia"
    } else {
        "red"
    };
    let rhs = set_to_vec(&assignment.rhs_signals);
    proof {
        lemma_sorted_keys(rhs@);
    }
    if rhs.len() == 1 {
        let mut attributes: Vec<Attribute> = Vec::new();
        push_attribute(&mut attributes, quoted_attribute("label", " <=="));
        push_attribute(&mut attributes, plain_attribute("fontname", "Courier"));
        push_attribute(&mut attributes, quoted_attribute("color", colour));
        push_statement(
            &mut statements,
            Statement::Edge {
                from: usize_to_string(rhs[0]),
                to: usize_to_string(assignment.lhs_signal),
                attributes,
            },
        );
        assert(statement_models(statements@) =~~= safe_assignment_statements(g, index as int));
    } else {
        let point = numbered("safe_assign_", assignment.lhs_signal);
        let mut attributes: Vec<Attribute> = Vec::new();
        push_attribute(&mut attributes, plain_attribute("shape", "point"));
        push_attribute(&mut attributes, plain_attribute("fontname", "Courier"));
        push_attribute(&mut attributes, quoted_attribute("xlabel", "<=="));
        push_statement(&mut statements, Statement::Node { id: point.clone(), attributes });
        let mut edge_attributes: Vec<Attribute> = Vec::new();
        push_attribute(&mut edge_attributes, quoted_attribute("color", colour));
        push_statement(
            &mut statements,
            Statement::Edge {
                from: point.clone(),
                to: usize_to_string(assignment.lhs_signal),
                attributes: edge_attributes,
            },
        );
        let ghost head = statement_models(statements@);
        let ghost edges = gathering_edges(rhs@, point@, colour@);
        let mut i: usize = 0;
        while i < rhs.len()
            invariant
                i <= rhs@.len(),
                edges == gathering_edges(rhs@, point@, colour@),
                statement_models(statements@) == head + edges.take(i as int),
            decreases rhs@.len() - i,
        {
            let mut attributes: Vec<Attribute> = Vec::new();
            push_attribute(&mut attributes, quoted_attribute("color", colour));
            push_statement(
                &mut statements,
                Statement::Edge {
                    from: usize_to_string(rhs[i]),
                    to: point.clone(),
                    attributes,
                },
            );
            assert(statement_models(statements@) =~~= head + edges.take(i + 1));
            i = i + 1;
        }
        assert(edges.take(i as int) =~= edges);
        assert(statement_models(statements@) =~~= safe_assignment_statements(g, index as int));
    }
    statements
}

/// The statements for the unsafe constraint at position `index`.
fn unsafe_constraint(graph: &VerificationGraph, context: &InputDataContextView, index: usize) -> (r:
    Vec<Statement>)
    requires
        index < graph.unsafe_constraints@.len(),
        context.tree_constraints.ports_in_bounds(),
    ensures
        statement_models(r@) == unsafe_constraint_statements(graph@, context, index as int),
{
    let ghost g = graph@;
    let constraint = &graph.unsafe_constraints[index];
    assert(constraint@ == g.unsafe_constraints[index as int]);
    let mut statements: Vec<Statement> = Vec::new();
    assert(statement_models(statements@) =~~= Seq::empty());
    if !constraint.active {
        return statements;
    }
    let colour = if graph.debug_polynomial_system_generator_data.unsafe_constraints.contains(
        &index,
    ) {
        "deeppink:fuchsia:fuchsia:deeppink"
    } else {
        "green"
    };
    let signals = set_to_vec(&constraint.signals);
    proof {
        lemma_sorted_keys(signals@);
    }
    if signals.len() == 1 {
        let mut attributes: Vec<Attribute> = Vec::new();
        push_attribute(&mut attributes, plain_attribute("dir", "none"));
        push_attribute(&mut attributes, quoted_attribute("color", colour));
        push_attribute(&mut attributes, quoted_attribute("label", " ==="));
        push_attribute(&mut attributes, plain_attribute("fontname", "Courier"));
        push_statement(
            &mut statements,
            Statement::Edge {
                from: usize_to_string(signals[0]),
                to: usize_to_string(signals[0]),
                attributes,
            },
        );
        assert(statement_models(statements@) =~~= unsafe_constraint_statements(
            g,
            context,
            index as int,
        ));
    } else {
        let point = numbered("constraint_", constraint.associated_constraint);
        let mut attributes: Vec<Attribute> = Vec::new();
        push_attribute(&mut attributes, plain_attribute("shape", "point"));
        push_attribute(&mut attributes, quoted_attribute("xlabel", " ==="));
        push_statement(&mut statements, Statement::Node { id: point.clone(), attributes });
        let ghost head = statement_models(statements@);
        let ghost edges = scattering_edges(context, signals@, point@, colour@);
        let mut i: usize = 0;
        while i < signals.len()
            invariant
                i <= signals@.len(),
                context.tree_constraints.ports_in_bounds(),
                edges == scattering_edges(context, signals@, point@, colour@),
                statement_models(statements@) == head + edges.take(i as int),
            decreases signals@.len() - i,
        {
            let signal = signals[i];
            let mut attributes: Vec<Attribute> = Vec::new();
            push_attribute(&mut attributes, plain_attribute("dir", "none"));
            push_attribute(&mut attributes, quoted_attribute("color", colour));
            if context.is_signal_public(signal) {
                push_statement(
                    &mut statements,
                    Statement::Edge {
                        from: usize_to_string(signal),
                        to: point.clone(),
                        attributes,
                    },
                );
            } else {
                push_statement(
                    &mut statements,
                    Statement::Edge {
                        from: point.clone(),
                        to: usize_to_string(signal),
                        attributes,
                    },
                );
            }
            assert(statement_models(statements@) =~~= head + edges.take(i + 1));
            i = i + 1;
        }
        assert(edges.take(i as int) =~= edges);
        assert(statement_models(statements@) =~~= unsafe_constraint_statements(
            g,
            context,
            index as int,
        ));
    }
    statements
}

/// The text of a title, where there is one.
pub open spec fn title_text(title: Option<&str>) -> Option<Seq<char>> {
    match title {
        Some(text) => Some(text@),
        None => None,
    }
}

/// The diagram of the verification graph, with the title above it where one
/// is given.
pub fn construct_graphviz_graph_from_verification_graph(
    verification_graph: &VerificationGraph,
    context: &InputDataContextView,
    graph_title: Option<&str>,
) -> (r: Diagram)
    requires
        can_draw(verification_graph@, context),
    ensures
        r.id@ == "id"@,
        statement_models(r.statements@) == diagram_statements(
            verification_graph@,
            context,
            title_text(graph_title),
        ),
{
    let ghost g = verification_graph@;
    let mut statements: Vec<Statement> = Vec::new();
    assert(statement_models(statements@) =~~= Seq::empty());

    let signals = map_keys(&verification_graph.nodes);
    proof {
        lemma_sorted_keys(signals@);
    }
    let mut i: usize = 0;
    while i < signals.len()
        invariant
            i <= signals@.len(),
            g == verification_graph@,
            can_draw(g, context),
            signals@.to_set() == g.nodes.dom(),
            statement_models(statements@) == own_signals_statements(
                g,
                context,
                signals@.take(i as int),
            ),
        decreases signals@.len() - i,
    {
        let signal = signals[i];
        proof {
            assert(signals@.contains(signal));
            assert(signals@.to_set().contains(signal));
            assert(g.nodes.contains_key(signal));
            let upto = signals@.take(i + 1);
            assert(upto.drop_last() =~= signals@.take(i as int));
            assert(upto.last() == signal);
        }
        append_statements(&mut statements, own_signal(verification_graph, context, signal));
        i = i + 1;
    }
    assert(signals@.take(i as int) =~= signals@);
    let ghost first = statement_models(statements@);

    let components = map_keys(&verification_graph.subcomponents);
    proof {
        lemma_sorted_keys(components@);
        assert(verification_graph.subcomponents@.dom() =~= g.subcomponents.dom());
    }
    let ghost clusters = cluster_statements(g, context, components@);
    let mut k: usize = 0;
    while k < components.len()
        invariant
            k <= components@.len(),
            g == verification_graph@,
            can_draw(g, context),
            components@.to_set() == g.subcomponents.dom(),
            clusters == cluster_statements(g, context, components@),
            statement_models(statements@) == first + clusters.take(k as int),
        decreases components@.len() - k,
    {
        let component = components[k];
        proof {
            assert(components@.contains(component));
            assert(components@.to_set().contains(component));
        }
        push_statement(&mut statements, build_cluster(verification_graph, context, component));
        assert(statement_models(statements@) =~~= first + clusters.take(k + 1));
        k = k + 1;
    }
    assert(clusters.take(k as int) =~= clusters);
    let ghost second = statement_models(statements@);

    let mut a: usize = 0;
    while a < verification_graph.safe_assignments.len()
        invariant
            a <= verification_graph.safe_assignments@.len(),
            g == verification_graph@,
            statement_models(statements@) == second + safe_assignments_statements(g, a as nat),
        decreases verification_graph.safe_assignments@.len() - a,
    {
        append_statements(&mut statements, safe_assignment(verification_graph, a));
        assert(statement_models(statements@) =~~= second + safe_assignments_statements(
            g,
            (a + 1) as nat,
        ));
        a = a + 1;
    }
    let ghost third = statement_models(statements@);

    let mut c: usize = 0;
    while c < verification_graph.unsafe_constraints.len()
        invariant
            c <= verification_graph.unsafe_constraints@.len(),
            g == verification_graph@,
            context.tree_constraints.ports_in_bounds(),
            statement_models(statements@) == third + unsafe_constraints_statements(
                g,
                context,
                c as nat,
            ),
        decreases verification_graph.unsafe_constraints@.len() - c,
    {
        append_statements(&mut statements, unsafe_constraint(verification_graph, context, c));
        assert(statement_models(statements@) =~~= third + unsafe_constraints_statements(
            g,
            context,
            (c + 1) as nat,
        ));
        c = c + 1;
    }

    match graph_title {
        Some(text) => {
            push_statement(&mut statements, Statement::Attribute(quoted_attribute("label", text)));
            push_statement(
                &mut statements,
                Statement::Attribute(plain_attribute("labelloc", "t")),
            );
        },
        None => {},
    }
    assert(statement_models(statements@) =~~= diagram_statements(g, context, title_text(graph_title)));
    Diagram { id: String::from_str("id"), statements }
}

/// A number in three digits at least, with zeros in front where it has fewer.
pub open spec fn padded(n: nat) -> Seq<char> {
    if n < 10 {
        "00"@ + decimal_nat(n)
    } else if n < 100 {
        "0"@ + decimal_nat(n)
    } else {
        decimal_nat(n)
    }
}

/// The name of the file for the diagram with the given number and name.
pub open spec fn diagram_file_name(index: nat, name: Seq<char>) -> Seq<char> {
    padded(index) + "-"@ + name + ".svg"@
}

/// Numbers the diagrams of a run.
pub struct DebugSVGPrinter {
    svg_folder_path: String,
    index: usize,
}

/// A diagram with the name of the file that it is to go to.
pub struct NamedDiagram {
    pub diagram: Diagram,
    pub file_name: String,
}

impl DebugSVGPrinter {
    /// The folder that the diagrams go to.
    pub closed spec fn folder(&self) -> Seq<char> {
        self.svg_folder_path@
    }

    /// The number of the next diagram.
    pub closed spec fn next_index(&self) -> nat {
        self.index as nat
    }

    /// A printer for the given folder, with no diagram made yet.
    pub fn new(svg_folder_path: &str) -> (r: Self)
        ensures
            r.folder() == svg_folder_path@,
            r.next_index() == 0,
    {
        DebugSVGPrinter { svg_folder_path: String::from_str(svg_folder_path), index: 0 }
    }

    /// The number of the next diagram.
    pub fn index(&self) -> (r: usize)
        ensures
            r == self.next_index(),
    {
        self.index
    }

    /// The folder that the diagrams go to.
    pub fn svg_folder_path(&self) -> (r: &String)
        ensures
            r@ == self.folder(),
    {
        &self.svg_folder_path
    }

    /// The diagram of the graph, with the name of its file, where the
    /// options ask for diagrams; nothing where they do not. Each diagram
    /// made takes the next number.
    pub fn print_verification_graph(
        &mut self,
        verification_graph: &VerificationGraph,
        context: &InputDataContextView,
        file_name: &str,
        graph_title: Option<&str>,
    ) -> (r: Option<NamedDiagram>)
        requires
            can_draw(verification_graph@, context),
            old(self).next_index() < usize::MAX,
        ensures
            final(self).folder() == old(self).folder(),
            r is Some <==> context.options.generate_svg_diagrams,
            final(self).next_index() == old(self).next_index() + if r is Some {
                1nat
            } else {
                0nat
            },
            r matches Some(named) ==> {
                &&& named.diagram.id@ == "id"@
                &&& statement_models(named.diagram.statements@) == diagram_statements(
                    verification_graph@,
                    context,
                    title_text(graph_title),
                )
                &&& named.file_name@ == diagram_file_name(old(self).next_index(), file_name@)
            },
    {
        if !context.options.generate_svg_diagrams {
            return None;
        }
        let diagram = construct_graphviz_graph_from_verification_graph(
            verification_graph,
            context,
            graph_title,
        );
        let mut name = if self.index < 10 {
            String::from_str("00")
        } else if self.index < 100 {
            String::from_str("0")
        } else {
            String::new()
        };
        let ghost lead = name@;
        name.append(usize_to_string(self.index).as_str());
        assert(self.index >= 100 ==> name@ =~= decimal_nat(self.index as nat));
        name.append("-");
        name.append(file_name);
        name.append(".svg");
        self.index = self.index + 1;
        Some(NamedDiagram { diagram, file_name: name })
    }
}

} // verus!
