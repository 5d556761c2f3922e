use circuit_verification::algebra::{Constraint, ConstraintStorage, LinearTerm};
use circuit_verification::cli::Options;
use circuit_verification::diagram::{
    check_can_draw, construct_graphviz_graph_from_verification_graph, Attribute, ClusterStatement, DebugSVGPrinter,
    Statement,
};
use circuit_verification::input_data::{InputDataContext, TreeConstraints};
use circuit_verification::numbers::BigInteger;
use circuit_verification::verification_graph::VerificationGraph;
use std::collections::BTreeMap;

fn number(text: &str) -> BigInteger {
    BigInteger::parse(text).unwrap()
}

fn term(summands: &[(usize, &str)]) -> LinearTerm {
    LinearTerm::from_sorted(summands.iter().map(|(s, c)| (*s, number(c))).collect()).unwrap()
}

fn constraint(a: &[(usize, &str)], b: &[(usize, &str)], c: &[(usize, &str)]) -> Constraint {
    Constraint::new(term(a), term(b), term(c))
}

fn attributes(list: &[Attribute]) -> String {
    list.iter()
        .map(|a| {
            if a.quoted {
                format!("{}=\"{}\"", a.name, a.value)
            } else {
                format!("{}={}", a.name, a.value)
            }
        })
        .collect::<Vec<_>>()
        .join(", ")
}

fn cluster_line(statement: &ClusterStatement) -> String {
    match statement {
        ClusterStatement::Node { id, attributes: list } => format!("{} [{}]", id, attributes(list)),
        ClusterStatement::Edge { from, to, attributes: list } => {
            format!("{} -> {} [{}]", from, to, attributes(list))
        }
        ClusterStatement::Attribute(a) => attributes(std::slice::from_ref(a)),
        ClusterStatement::NodeDefaults(list) => format!("node [{}]", attributes(list)),
    }
}

fn lines(statements: &[Statement]) -> Vec<String> {
    let mut out = vec![];
    for statement in statements {
        match statement {
            Statement::Node { id, attributes: list } => {
                out.push(format!("{} [{}]", id, attributes(list)))
            }
            Statement::Edge { from, to, attributes: list } => {
                out.push(format!("{} -> {} [{}]", from, to, attributes(list)))
            }
            Statement::Attribute(a) => out.push(attributes(std::slice::from_ref(a))),
            Statement::Subgraph { id, statements } => {
                out.push(format!("subgraph \"{}\" {{", id));
                out.extend(statements.iter().map(|s| format!("  {}", cluster_line(s))));
                out.push("}".to_string());
            }
        }
    }
    out
}

// main: out = 1, in = 2, mid = 3; below it main.sub: output 4, input 5.
//   0: sub.in <== in          (safe)
//   1: mid <== in * sub.out   (safe)
//   2: out * out = mid        (unsafe)
//   3: mid * (mid - 1) = 0    (unsafe)
fn example(options: Options) -> (ConstraintStorage, InputDataContext) {
    let mut store = ConstraintStorage::new();
    store.add_constraint(constraint(&[], &[], &[(2, "1"), (5, "16")]));
    store.add_constraint(constraint(&[(2, "1")], &[(4, "1")], &[(3, "16")]));
    store.add_constraint(constraint(&[(1, "1")], &[(1, "1")], &[(3, "16")]));
    store.add_constraint(constraint(&[(3, "1")], &[(0, "16"), (3, "1")], &[]));
    let sub = TreeConstraints {
        field: "17".to_string(),
        no_constraints: 0,
        initial_constraint: 4,
        node_id: 1,
        template_name: "Sub".to_string(),
        component_name: "main.sub".to_string(),
        number_inputs: 1,
        number_outputs: 1,
        number_signals: 2,
        initial_signal: 4,
        are_double_arrow: vec![],
        subcomponents: vec![],
    };
    let tree = TreeConstraints {
        field: "17".to_string(),
        no_constraints: 4,
        initial_constraint: 0,
        node_id: 0,
        template_name: "Main".to_string(),
        component_name: "main".to_string(),
        number_inputs: 1,
        number_outputs: 1,
        number_signals: 5,
        initial_signal: 1,
        are_double_arrow: vec![(0, 5), (1, 3)],
        subcomponents: vec![sub],
    };
    let data = InputDataContext {
        witness: BTreeMap::new(),
        signal_name_map: [(1, "out"), (2, "in"), (3, "mid"), (4, "sub.out"), (5, "sub.in")]
            .iter()
            .map(|(s, n)| (*s, n.to_string()))
            .collect(),
        tree_constraints: tree,
        base_path: ".".to_string(),
        options,
    };
    (store, data)
}

#[test]
fn the_diagram_shows_signals_clusters_and_edges() {
    let (store, data) = example(Options::default());
    let view = data.get_context_view().unwrap();
    let mut graph = VerificationGraph::new(&view, &store);
    graph.debug_polynomial_system_generator_data.nodes.insert(1);
    graph.debug_polynomial_system_generator_data.unsafe_constraints.insert(0);
    let diagram = construct_graphviz_graph_from_verification_graph(&graph, &view, Some("start"));
    assert_eq!(diagram.id, "id");
    let expected = vec![
        "1 [label=\"out\", color=\"fuchsia\", shape=Mdiamond]",
        "output_dummy_1 [shape=none, label=\"\"]",
        "1 -> output_dummy_1 []",
        "2 [label=\"in\", color=\"orange\", shape=Mdiamond, style=filled, fillcolor=firebrick4, fontcolor=white]",
        "input_dummy_2 [shape=none, label=\"\"]",
        "input_dummy_2 -> 2 []",
        "3 [label=\"mid\", color=\"black\"]",
        "subgraph \"cluster_0\" {",
        "  style=filled",
        "  color=lightgrey",
        "  label=\"sub: Sub\"",
        "  node [style=filled, fillcolor=white]",
        "  dummy_0 [shape=point, fontname=Courier]",
        "  4 [label=\"sub.out\", color=\"blue\"]",
        "  dummy_0 -> 4 []",
        "  5 [label=\"sub.in\", color=\"green\"]",
        "  5 -> dummy_0 [dir=none]",
        "}",
        "2 -> 5 [label=\" <==\", fontname=Courier, color=\"red\"]",
        "safe_assign_3 [shape=point, fontname=Courier, xlabel=\"<==\"]",
        "safe_assign_3 -> 3 [color=\"red\"]",
        "2 -> safe_assign_3 [color=\"red\"]",
        "4 -> safe_assign_3 [color=\"red\"]",
        "constraint_2 [shape=point, xlabel=\" ===\"]",
        "constraint_2 -> 1 [dir=none, color=\"deeppink:fuchsia:fuchsia:deeppink\"]",
        "constraint_2 -> 3 [dir=none, color=\"deeppink:fuchsia:fuchsia:deeppink\"]",
        "3 -> 3 [dir=none, color=\"green\", label=\" ===\", fontname=Courier]",
        "label=\"start\"",
        "labelloc=t",
    ];
    assert_eq!(lines(&diagram.statements), expected);
}

#[test]
fn edges_that_have_done_their_work_are_left_out() {
    let (store, data) = example(Options::default());
    let view = data.get_context_view().unwrap();
    let mut graph = VerificationGraph::new(&view, &store);
    let reduced: Vec<Constraint> = graph
        .unsafe_constraints
        .iter()
        .map(|c| store.read_constraint(c.associated_constraint).unwrap().clone())
        .collect();
    while graph.propagation_sweep(&reduced).progress {}
    graph.debug_polynomial_system_generator_data.safe_assignments.insert(0);
    let diagram = construct_graphviz_graph_from_verification_graph(&graph, &view, None);
    let drawn = lines(&diagram.statements);
    // Everything but the output is fixed; only out * out = mid is left, with an input-like end
    // at neither of its signals.
    assert!(drawn.contains(&"1 [label=\"out\", color=\"orange\", shape=Mdiamond]".to_string()));
    assert!(drawn.contains(
        &"3 [label=\"mid\", color=\"black\", style=filled, fillcolor=firebrick4, fontcolor=white]"
            .to_string()
    ));
    assert!(drawn.contains(
        &"  4 [label=\"sub.out\", color=\"blue\", style=filled, fillcolor=firebrick4, fontcolor=white]"
            .to_string()
    ));
    assert!(!drawn.iter().any(|l| l.contains("<==")));
    assert!(!drawn.iter().any(|l| l.contains("label=\"start\"")));
    assert_eq!(drawn.iter().filter(|l| l.contains("===")).count(), 1);
    assert_eq!(drawn.last().unwrap(), "constraint_2 -> 3 [dir=none, color=\"green\"]");
}

#[test]
fn diagrams_are_numbered_when_they_are_asked_for() {
    let (store, data) = example(Options::from_flags(5, 75, true, false));
    let view = data.get_context_view().unwrap();
    let graph = VerificationGraph::new(&view, &store);
    let mut printer = DebugSVGPrinter::new("out/svg");
    assert_eq!(printer.svg_folder_path(), "out/svg");
    assert_eq!(printer.index(), 0);
    let first = printer.print_verification_graph(&graph, &view, "components", None).unwrap();
    assert_eq!(first.file_name, "000-components.svg");
    assert_eq!(first.diagram.id, "id");
    let second = printer.print_verification_graph(&graph, &view, "step", Some("t")).unwrap();
    assert_eq!(second.file_name, "001-step.svg");
    for _ in 2..10 {
        printer.print_verification_graph(&graph, &view, "x", None).unwrap();
    }
    assert_eq!(
        printer.print_verification_graph(&graph, &view, "x", None).unwrap().file_name,
        "010-x.svg"
    );
    for _ in 11..100 {
        printer.print_verification_graph(&graph, &view, "x", None).unwrap();
    }
    assert_eq!(
        printer.print_verification_graph(&graph, &view, "x", None).unwrap().file_name,
        "100-x.svg"
    );

    let (store, data) = example(Options::default());
    let view = data.get_context_view().unwrap();
    let graph = VerificationGraph::new(&view, &store);
    let mut silent = DebugSVGPrinter::new("out/svg");
    assert!(silent.print_verification_graph(&graph, &view, "components", None).is_none());
    assert!(silent.print_verification_graph(&graph, &view, "components", None).is_none());
}

#[test]
fn a_diagram_needs_the_name_of_every_signal_it_shows() {
    let (store, mut data) = example(Options::default());
    {
        let view = data.get_context_view().unwrap();
        let graph = VerificationGraph::new(&view, &store);
        assert!(check_can_draw(&graph, &view));
    }
    // Without the name of the input of the component below.
    data.signal_name_map.remove(&5);
    {
        let view = data.get_context_view().unwrap();
        let graph = VerificationGraph::new(&view, &store);
        assert!(!check_can_draw(&graph, &view));
    }
    // Without the name of a signal of the component itself.
    data.signal_name_map.insert(5, "sub.in".to_string());
    data.signal_name_map.remove(&3);
    let view = data.get_context_view().unwrap();
    let graph = VerificationGraph::new(&view, &store);
    assert!(!check_can_draw(&graph, &view));
}
