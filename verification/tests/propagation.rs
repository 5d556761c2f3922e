use circuit_verification::algebra::{Constraint, ConstraintStorage, LinearTerm};
use circuit_verification::cli::Options;
use circuit_verification::frame::FrameStep;
use circuit_verification::input_data::{InputDataContext, TreeConstraints};
use circuit_verification::numbers::BigInteger;
use circuit_verification::verdict::{SubComponentVerificationResultKind, VerificationException};
use circuit_verification::verification_graph::{
    propagate_fixed_node_in_safe_assignment, propagate_fixed_node_in_unsafe_constraint, Node,
    SafeAssignment, Substitution, UnsafeConstraint, VerificationGraph,
};
use std::collections::{BTreeMap, BTreeSet};

fn number(text: &str) -> BigInteger {
    BigInteger::parse(text).unwrap()
}

fn term(summands: &[(usize, &str)]) -> LinearTerm {
    LinearTerm::from_sorted(summands.iter().map(|(s, c)| (*s, number(c))).collect()).unwrap()
}

fn constraint(a: &[(usize, &str)], b: &[(usize, &str)], c: &[(usize, &str)]) -> Constraint {
    Constraint::new(term(a), term(b), term(c))
}

fn storage(constraints: Vec<Constraint>) -> ConstraintStorage {
    let mut storage = ConstraintStorage::new();
    for c in constraints {
        storage.add_constraint(c);
    }
    storage
}

fn leaf(
    name: &str,
    initial_signal: usize,
    outputs: usize,
    inputs: usize,
    signals: usize,
    initial_constraint: usize,
    constraints: usize,
    double_arrows: Vec<(usize, usize)>,
) -> TreeConstraints {
    TreeConstraints {
        field: "17".to_string(),
        no_constraints: constraints,
        initial_constraint,
        node_id: 0,
        template_name: "T".to_string(),
        component_name: name.to_string(),
        number_inputs: inputs,
        number_outputs: outputs,
        number_signals: signals,
        initial_signal,
        are_double_arrow: double_arrows,
        subcomponents: vec![],
    }
}

fn context(tree: TreeConstraints, signals: usize) -> InputDataContext {
    InputDataContext {
        witness: (1..=signals).map(|s| (s, BigInteger::from_usize(1))).collect::<BTreeMap<_, _>>(),
        signal_name_map: (1..=signals).map(|s| (s, format!("s{}", s))).collect::<BTreeMap<_, _>>(),
        tree_constraints: tree,
        base_path: ".".to_string(),
        options: Options::default(),
    }
}

fn set(items: &[usize]) -> BTreeSet<usize> {
    items.iter().copied().collect()
}

fn as_stored(storage: &ConstraintStorage, graph: &VerificationGraph) -> Vec<Constraint> {
    graph
        .unsafe_constraints
        .iter()
        .map(|c| storage.read_constraint(c.associated_constraint).unwrap().clone())
        .collect()
}

fn active_edges(graph: &VerificationGraph) -> usize {
    graph.safe_assignments.iter().filter(|a| a.active).count()
        + graph.unsafe_constraints.iter().filter(|c| c.active).count()
}

// Signals: out = 1, in = 2, a = 3, b = 4, c = 5.
//   0: a <== 5                (safe, by constants alone)
//   1: b <== a + in           (safe)
//   2: 3 * c = 1              (unsafe, linear in one signal)
//   3: out * out = b          (unsafe)
//   4: out <== b * c          (safe)
fn chain() -> (ConstraintStorage, InputDataContext) {
    let store = storage(vec![
        constraint(&[], &[], &[(0, "12"), (3, "1")]),
        constraint(&[], &[], &[(2, "1"), (3, "1"), (4, "16")]),
        constraint(&[], &[], &[(0, "16"), (5, "3")]),
        constraint(&[(1, "1")], &[(1, "1")], &[(4, "16")]),
        constraint(&[(4, "1")], &[(5, "1")], &[(1, "16")]),
    ]);
    let data = context(leaf("main", 1, 1, 1, 5, 0, 5, vec![(0, 3), (1, 4), (4, 1)]), 5);
    (store, data)
}

#[test]
fn the_graph_starts_with_inputs_constants_and_determined_signals_fixed() {
    let (store, data) = chain();
    let view = data.get_context_view().unwrap();
    let graph = VerificationGraph::new(&view, &store);

    assert_eq!(
        graph.nodes,
        [
            (1, Node::OutputSignal),
            (2, Node::InputSignal),
            (3, Node::IntermediateSignal),
            (4, Node::IntermediateSignal),
            (5, Node::IntermediateSignal)
        ]
        .into_iter()
        .collect::<BTreeMap<_, _>>()
    );
    let safe: Vec<(usize, Vec<usize>, usize, bool)> = graph
        .safe_assignments
        .iter()
        .map(|a| (a.lhs_signal, a.rhs_signals.iter().copied().collect(), a.associated_constraint, a.active))
        .collect();
    assert_eq!(
        safe,
        vec![(3, vec![], 0, true), (4, vec![2, 3], 1, true), (1, vec![4, 5], 4, true)]
    );
    let unsafe_constraints: Vec<(Vec<usize>, usize, bool)> = graph
        .unsafe_constraints
        .iter()
        .map(|c| (c.signals.iter().copied().collect(), c.associated_constraint, c.active))
        .collect();
    assert_eq!(unsafe_constraints, vec![(vec![5], 2, true), (vec![1, 4], 3, true)]);
    assert_eq!(
        graph.incoming_safe_assignments,
        [(3, 0), (4, 1), (1, 2)].into_iter().collect::<BTreeMap<_, _>>()
    );
    assert_eq!(
        graph.outgoing_safe_assignments,
        [(2, set(&[1])), (3, set(&[1])), (4, set(&[2])), (5, set(&[2]))]
            .into_iter()
            .collect::<BTreeMap<_, _>>()
    );
    assert_eq!(
        graph.edge_constraints,
        [(1, set(&[1])), (4, set(&[1])), (5, set(&[0]))].into_iter().collect::<BTreeMap<_, _>>()
    );
    assert!(graph.substitutions.is_empty());
    // The input, the signal assigned a constant, and the signal of 3 * c = 1.
    assert_eq!(graph.fixed_nodes, set(&[2, 3, 5]));
}

#[test]
fn a_sweep_only_adds_fixed_signals_and_only_retires_edges() {
    let (store, data) = chain();
    let view = data.get_context_view().unwrap();
    let mut graph = VerificationGraph::new(&view, &store);
    let mut fixed = graph.fixed_nodes.clone();
    let mut edges = active_edges(&graph);
    let mut safe_flags: Vec<bool> = graph.safe_assignments.iter().map(|a| a.active).collect();
    let mut unsafe_flags: Vec<bool> = graph.unsafe_constraints.iter().map(|c| c.active).collect();
    let mut history = vec![];
    loop {
        let outcome = graph.propagation_sweep(&as_stored(&store, &graph));
        assert!(fixed.is_subset(&graph.fixed_nodes));
        assert!(active_edges(&graph) <= edges);
        for (i, a) in graph.safe_assignments.iter().enumerate() {
            assert!(!a.active || safe_flags[i]);
        }
        for (j, c) in graph.unsafe_constraints.iter().enumerate() {
            assert!(!c.active || unsafe_flags[j]);
        }
        let changed = fixed != graph.fixed_nodes || edges != active_edges(&graph);
        assert_eq!(outcome.progress, changed);
        fixed = graph.fixed_nodes.clone();
        edges = active_edges(&graph);
        safe_flags = graph.safe_assignments.iter().map(|a| a.active).collect();
        unsafe_flags = graph.unsafe_constraints.iter().map(|c| c.active).collect();
        history.push((fixed.iter().copied().collect::<Vec<_>>(), edges));
        if !outcome.progress {
            break;
        }
    }
    assert_eq!(
        history,
        vec![
            // a <== 5 and b <== a + in fire; 3 * c = 1 has nothing left to fix.
            (vec![2, 3, 4, 5], 2),
            // out <== b * c fires, and with it out * out = b has nothing left to fix.
            (vec![1, 2, 3, 4, 5], 0),
            (vec![1, 2, 3, 4, 5], 0),
        ]
    );
}

#[test]
fn a_sweep_at_a_fixpoint_changes_nothing() {
    let (store, data) = chain();
    let view = data.get_context_view().unwrap();
    let mut graph = VerificationGraph::new(&view, &store);
    while graph.propagation_sweep(&as_stored(&store, &graph)).progress {}
    let fixed = graph.fixed_nodes.clone();
    let safe: Vec<bool> = graph.safe_assignments.iter().map(|a| a.active).collect();
    let unsafe_constraints: Vec<bool> = graph.unsafe_constraints.iter().map(|c| c.active).collect();
    for _ in 0..3 {
        let outcome = graph.propagation_sweep(&as_stored(&store, &graph));
        assert!(!outcome.progress);
        assert!(outcome.linearised.is_empty());
        assert_eq!(graph.fixed_nodes, fixed);
        assert_eq!(graph.safe_assignments.iter().map(|a| a.active).collect::<Vec<_>>(), safe);
        assert_eq!(
            graph.unsafe_constraints.iter().map(|c| c.active).collect::<Vec<_>>(),
            unsafe_constraints
        );
    }
}

// Signals: out = 1, in = 2, free = 3.
//   0: out <== in * free   (safe; never fires, for nothing fixes free)
#[test]
fn an_active_safe_assignment_at_a_fixpoint_has_an_unfixed_signal_on_its_right() {
    let store = storage(vec![constraint(&[(2, "1")], &[(3, "1")], &[(1, "16")])]);
    let data = context(leaf("main", 1, 1, 1, 3, 0, 1, vec![(0, 1)]), 3);
    let view = data.get_context_view().unwrap();
    let mut graph = VerificationGraph::new(&view, &store);
    while graph.propagation_sweep(&as_stored(&store, &graph)).progress {}
    for assignment in &graph.safe_assignments {
        if assignment.active {
            assert!(assignment.rhs_signals.iter().any(|s| !graph.fixed_nodes.contains(s)));
        } else {
            assert!(graph.fixed_nodes.contains(&assignment.lhs_signal));
        }
    }
    assert!(graph.safe_assignments[0].active);
    assert!(!graph.fixed_nodes.contains(&1));
}

// Signals: out = 1, in = 2, mid = 3.
//   0: in * mid = out   (unsafe)
//   1: mid * mid = in   (unsafe)
#[test]
fn an_unsafe_constraint_fixes_its_last_signal_when_its_reduced_form_is_linear() {
    let store = storage(vec![
        constraint(&[(2, "1")], &[(3, "1")], &[(1, "16")]),
        constraint(&[(3, "1")], &[(3, "1")], &[(2, "16")]),
    ]);
    let data = context(leaf("main", 1, 1, 1, 3, 0, 2, vec![]), 3);
    let view = data.get_context_view().unwrap();
    let mut graph = VerificationGraph::new(&view, &store);
    assert_eq!(graph.fixed_nodes, set(&[2]));

    // As they stand, neither constraint is linear.
    let outcome = graph.propagation_sweep(&as_stored(&store, &graph));
    assert!(!outcome.progress);

    // With in = 4 put in, the second reads mid * mid = 4, still with a product,
    // and the first 4 * mid - out = 0, with two signals left.
    let reduced = vec![
        constraint(&[], &[], &[(1, "16"), (3, "4")]),
        constraint(&[(3, "1")], &[(3, "1")], &[(0, "13")]),
    ];
    let outcome = graph.propagation_sweep(&reduced);
    assert!(!outcome.progress);

    // Once mid is known to be 2, the first reads 8 - out = 0.
    graph.fixed_nodes.insert(3);
    let reduced = vec![
        constraint(&[], &[], &[(0, "8"), (1, "16")]),
        constraint(&[], &[], &[]),
    ];
    let outcome = graph.propagation_sweep(&reduced);
    assert!(outcome.progress);
    assert_eq!(outcome.linearised, vec![(0, 1)]);
    assert_eq!(graph.fixed_nodes, set(&[1, 2, 3]));
    assert!(!graph.unsafe_constraints[0].active);
    assert!(!graph.unsafe_constraints[1].active);

    graph.record_substitution(Substitution { from: 1, to: term(&[(0, "8")]) });
    assert_eq!(graph.substitutions.len(), 1);
    assert_eq!(graph.substitutions[0].from, 1);
}

fn unsafe_edge(signals: &[usize]) -> UnsafeConstraint {
    UnsafeConstraint { signals: set(signals), associated_constraint: 0, active: true }
}

#[test]
fn a_coefficient_of_zero_fixes_nothing() {
    let mut fixed = set(&[9]);
    let mut edge = unsafe_edge(&[4]);
    let zero = constraint(&[], &[], &[(0, "1"), (4, "0")]);
    assert_eq!(propagate_fixed_node_in_unsafe_constraint(&mut fixed, &mut edge, &zero), None);
    assert_eq!(fixed, set(&[9]));
    assert!(edge.active);
    let absent = constraint(&[(4, "1")], &[], &[]);
    assert_eq!(propagate_fixed_node_in_unsafe_constraint(&mut fixed, &mut edge, &absent), None);
    assert_eq!(fixed, set(&[9]));
    let product = constraint(&[(4, "1")], &[(4, "1")], &[(4, "1")]);
    assert_eq!(propagate_fixed_node_in_unsafe_constraint(&mut fixed, &mut edge, &product), None);
    assert_eq!(fixed, set(&[9]));
    assert!(edge.active);
    let linear = constraint(&[], &[], &[(0, "1"), (4, "3")]);
    assert_eq!(propagate_fixed_node_in_unsafe_constraint(&mut fixed, &mut edge, &linear), Some(4));
    assert_eq!(fixed, set(&[4, 9]));
    assert!(!edge.active);
    assert_eq!(edge.signals, set(&[4]));

    let mut two = unsafe_edge(&[4, 5]);
    let mut fixed = set(&[]);
    let both = constraint(&[], &[], &[(4, "3"), (5, "1")]);
    assert_eq!(propagate_fixed_node_in_unsafe_constraint(&mut fixed, &mut two, &both), None);
    assert!(fixed.is_empty());
    assert!(two.active);
}

#[test]
fn an_unsafe_constraint_fixes_the_one_signal_that_is_not_fixed() {
    let mut fixed = set(&[2]);
    let mut edge = unsafe_edge(&[2, 5]);
    let reduced = constraint(&[], &[], &[(2, "1"), (5, "6")]);
    assert_eq!(propagate_fixed_node_in_unsafe_constraint(&mut fixed, &mut edge, &reduced), Some(5));
    assert_eq!(fixed, set(&[2, 5]));
    assert!(!edge.active);

    // An edge that has done its work does nothing more.
    let mut fixed = set(&[2]);
    assert_eq!(propagate_fixed_node_in_unsafe_constraint(&mut fixed, &mut edge, &reduced), None);
    assert_eq!(fixed, set(&[2]));

    // Nothing is left to fix.
    let mut fixed = set(&[2, 5]);
    let mut edge = unsafe_edge(&[2, 5]);
    assert_eq!(propagate_fixed_node_in_unsafe_constraint(&mut fixed, &mut edge, &reduced), None);
    assert_eq!(fixed, set(&[2, 5]));
    assert!(edge.active);
}

#[test]
fn a_safe_assignment_of_constants_fixes_its_signal() {
    let mut fixed = set(&[]);
    let mut constant = SafeAssignment {
        lhs_signal: 6,
        rhs_signals: set(&[]),
        associated_constraint: 0,
        active: true,
    };
    let mut dependent = SafeAssignment {
        lhs_signal: 7,
        rhs_signals: set(&[6]),
        associated_constraint: 1,
        active: true,
    };
    propagate_fixed_node_in_safe_assignment(&mut fixed, &mut dependent);
    assert!(fixed.is_empty());
    assert!(dependent.active);
    propagate_fixed_node_in_safe_assignment(&mut fixed, &mut constant);
    assert_eq!(fixed, set(&[6]));
    assert!(!constant.active);
    propagate_fixed_node_in_safe_assignment(&mut fixed, &mut dependent);
    assert_eq!(fixed, set(&[6, 7]));
    assert!(!dependent.active);
    assert_eq!(dependent.rhs_signals, set(&[6]));
}

#[test]
fn a_safe_assignment_fires_once_its_right_hand_side_is_fixed() {
    let mut fixed = set(&[2]);
    let mut assignment = SafeAssignment {
        lhs_signal: 1,
        rhs_signals: set(&[2]),
        associated_constraint: 0,
        active: true,
    };
    propagate_fixed_node_in_safe_assignment(&mut fixed, &mut assignment);
    assert_eq!(fixed, set(&[1, 2]));
    assert!(!assignment.active);

    // An assignment that has fired does not fire again.
    let mut fixed = set(&[2]);
    propagate_fixed_node_in_safe_assignment(&mut fixed, &mut assignment);
    assert_eq!(fixed, set(&[2]));

    // With a signal on the right that is not fixed it waits.
    let mut waiting = SafeAssignment {
        lhs_signal: 1,
        rhs_signals: set(&[2, 3]),
        associated_constraint: 0,
        active: true,
    };
    propagate_fixed_node_in_safe_assignment(&mut fixed, &mut waiting);
    assert_eq!(fixed, set(&[2]));
    assert!(waiting.active);
}

// The component main has the signals out = 1, in = 2, and below it a
// component with the output 3 and the inputs 4 and 5.
//   0: child.in0 <== in        (safe)
//   1: child.in1 <== in + 1    (safe)
//   2: out <== child.out       (safe)
fn with_child() -> (ConstraintStorage, InputDataContext) {
    let store = storage(vec![
        constraint(&[], &[], &[(2, "1"), (4, "16")]),
        constraint(&[], &[], &[(0, "1"), (2, "1"), (5, "16")]),
        constraint(&[], &[], &[(1, "16"), (3, "1")]),
    ]);
    let mut tree = leaf("main", 1, 1, 1, 5, 0, 3, vec![(0, 4), (1, 5), (2, 1)]);
    let mut child = leaf("main.child", 3, 1, 2, 3, 3, 0, vec![]);
    child.node_id = 1;
    tree.subcomponents.push(child);
    (store, context(tree, 5))
}

#[test]
fn a_component_below_is_activated_once_its_inputs_are_fixed() {
    let (store, data) = with_child();
    let view = data.get_context_view().unwrap();
    assert!(data.tree_constraints.check_frame(store.len()));
    let mut graph = VerificationGraph::new(&view, &store);
    assert_eq!(graph.nodes[&3], Node::SubComponentOutputSignal(0));
    assert_eq!(graph.nodes[&4], Node::SubComponentInputSignal(1));
    assert_eq!(graph.nodes[&5], Node::SubComponentInputSignal(1));
    assert_eq!(graph.subcomponents[&0].input_signals, set(&[4, 5]));
    assert_eq!(graph.subcomponents[&0].output_signals, set(&[3]));
    assert_eq!(graph.subcomponents[&0].not_yet_fixed_inputs, set(&[4, 5]));
    assert!(graph.activated_subcomponents().is_empty());

    // The inputs of the child are fixed by the safe assignments; with them
    // fixed the child is activated, and its output is fixed.
    assert!(graph.propagation_sweep(&vec![]).progress);
    assert_eq!(graph.fixed_nodes, set(&[2, 3, 4, 5]));
    assert!(graph.subcomponents[&0].not_yet_fixed_inputs.is_empty());
    assert_eq!(graph.activated_subcomponents(), vec![0]);
    // The output of main follows.
    assert!(graph.propagation_sweep(&vec![]).progress);
    assert_eq!(graph.fixed_nodes, set(&[1, 2, 3, 4, 5]));
    assert!(!graph.propagation_sweep(&vec![]).progress);

    let child_view = view.get_subcomponent_context_view(0);
    assert_eq!(child_view.tree_constraints.component_name, "main.child");
    assert!(child_view.is_signal_public(4));
    assert!(child_view.is_signal_public(5));
    assert!(!child_view.is_signal_public(3));
    assert!(!child_view.is_signal_public(6));
}

// Signals: out0 = 1, out1 = 2, in = 3.
//   0: out0 * out1 = in          (unsafe)
//   1: out0 * out0 = out1 * ...  (unsafe) written as out0 * out0 - out1 = 0
#[test]
fn two_products_tied_by_two_signals_cannot_be_turned_into_a_system() {
    let store = storage(vec![
        constraint(&[(1, "1")], &[(2, "1")], &[(3, "16")]),
        constraint(&[(1, "1")], &[(1, "1")], &[(2, "16")]),
    ]);
    let data = context(leaf("main", 1, 2, 1, 3, 0, 2, vec![]), 3);
    let view = data.get_context_view().unwrap();
    let mut graph = VerificationGraph::new(&view, &store);
    assert!(!graph.propagation_sweep(&as_stored(&store, &graph)).progress);
    let reduced = as_stored(&store, &graph);
    assert_eq!(
        graph.extract_polynomial_systems(&view, &reduced).err(),
        Some(VerificationException::NoUnsafeConstraintConnectedComponentWithoutCycles)
    );
    let result = graph.verdict(&view, &reduced, vec![], vec![]);
    assert!(matches!(
        result.kind,
        SubComponentVerificationResultKind::Exception(
            VerificationException::NoUnsafeConstraintConnectedComponentWithoutCycles
        )
    ));
    assert_eq!(
        result.get_error_string().unwrap(),
        "[Exception] Cyclic dependencies between === constraints connected component in component 'main', cannot determine safety"
    );

    // A linear constraint over the same two signals breaks the tie.
    let with_breaker = vec![
        constraint(&[(1, "1")], &[(2, "1")], &[(3, "16")]),
        constraint(&[], &[], &[(1, "1"), (2, "16")]),
    ];
    let systems = graph.extract_polynomial_systems(&view, &with_breaker).unwrap();
    assert_eq!(systems.len(), 1);
    assert_eq!(systems[0].constraints.len(), 2);
    assert_eq!(systems[0].signals_to_fix, set(&[1, 2]));
}

// Signals: out0 = 1, out1 = 2, in = 3, a = 4, b = 5, c = 6.
//   0: out0 * a = in     1: a * a = in        (one component: 1, 4)
//   2: out1 * out1 = in                       (one component: 2)
//   3: b * c = in                             (one component: 5, 6; nothing to fix)
#[test]
fn each_connected_component_with_something_to_fix_is_one_system() {
    let store = storage(vec![
        constraint(&[(1, "1")], &[(4, "1")], &[(3, "16")]),
        constraint(&[(2, "1")], &[(2, "1")], &[(3, "16")]),
        constraint(&[(5, "1")], &[(6, "1")], &[(3, "16")]),
        constraint(&[(4, "1")], &[(4, "1")], &[(3, "16")]),
    ]);
    let data = context(leaf("main", 1, 2, 1, 6, 0, 4, vec![]), 6);
    let view = data.get_context_view().unwrap();
    let mut graph = VerificationGraph::new(&view, &store);
    assert!(!graph.propagation_sweep(&as_stored(&store, &graph)).progress);
    let reduced = as_stored(&store, &graph);
    let systems = graph.extract_polynomial_systems(&view, &reduced).unwrap();
    let summary: Vec<(usize, Vec<usize>)> = systems
        .iter()
        .map(|s| (s.constraints.len(), s.signals_to_fix.iter().copied().collect()))
        .collect();
    assert_eq!(summary, vec![(2, vec![1]), (1, vec![2])]);

    graph.assume_systems_hold(&systems);
    assert_eq!(graph.fixed_nodes, set(&[1, 2, 3]));
    assert!(graph.unsafe_constraints.iter().all(|c| !c.active));
    let result = graph.verdict(&view, &reduced, vec![], systems);
    match result.kind {
        SubComponentVerificationResultKind::ModuleConditionallySafe(conditions) => {
            assert_eq!(conditions.pol_systems.len(), 2);
        }
        _ => panic!("a verdict on condition is due"),
    }
}

#[test]
fn propagation_runs_until_nothing_changes() {
    let (store, data) = chain();
    let view = data.get_context_view().unwrap();
    let mut graph = VerificationGraph::new(&view, &store);
    let outcome = graph.propagate(&as_stored(&store, &graph));
    assert!(!outcome.progress);
    assert!(outcome.linearised.is_empty());
    assert_eq!(graph.fixed_nodes, set(&[1, 2, 3, 4, 5]));
    assert_eq!(active_edges(&graph), 0);
    assert!(!graph.propagation_sweep(&as_stored(&store, &graph)).progress);

    // Propagation stops where an unsafe constraint fixes a signal.
    let store = storage(vec![
        constraint(&[], &[], &[(1, "1"), (2, "16")]),
        constraint(&[], &[], &[(3, "16"), (4, "1")]),
        constraint(&[], &[], &[(1, "1"), (4, "16")]),
    ]);
    // Signals: out = 1, in = 2, a = 3, b = 4. The constraints read out = in, b = a, out = b,
    // and a <== b is the one safe assignment.
    let data = context(leaf("main", 1, 1, 1, 4, 0, 3, vec![(1, 3)]), 4);
    let view = data.get_context_view().unwrap();
    let mut graph = VerificationGraph::new(&view, &store);
    assert_eq!(graph.fixed_nodes, set(&[2]));
    let outcome = graph.propagate(&as_stored(&store, &graph));
    assert!(outcome.progress);
    assert_eq!(outcome.linearised, vec![(0, 1)]);
    assert_eq!(graph.fixed_nodes, set(&[1, 2]));
    let outcome = graph.propagate(&as_stored(&store, &graph));
    assert_eq!(outcome.linearised, vec![(1, 4)]);
    assert_eq!(graph.fixed_nodes, set(&[1, 2, 4]));
    let outcome = graph.propagate(&as_stored(&store, &graph));
    assert!(outcome.linearised.is_empty());
    assert!(!outcome.progress);
    assert_eq!(graph.fixed_nodes, set(&[1, 2, 3, 4]));
}

// Signals: out = 1, in = 2, mid = 3, free = 4.
//   0: mid = 2 * in         (unsafe, linear)
//   1: free * free = mid    (unsafe)
//   2: out <== free + mid   (safe)
#[test]
fn the_analysis_of_a_component_goes_step_by_step() {
    let store = storage(vec![
        constraint(&[], &[], &[(2, "2"), (3, "16")]),
        constraint(&[(4, "1")], &[(4, "1")], &[(3, "16")]),
        constraint(&[], &[], &[(1, "16"), (3, "1"), (4, "1")]),
    ]);
    let data = context(leaf("main", 1, 1, 1, 4, 0, 3, vec![(2, 1)]), 4);
    let view = data.get_context_view().unwrap();
    let mut graph = VerificationGraph::new(&view, &store);
    let mut assumed = vec![];

    // mid is fixed by the linear constraint, which calls for a substitution.
    let step = graph.analysis_step(&view, &as_stored(&store, &graph), &mut assumed);
    match step {
        FrameStep::Substitute(list) => assert_eq!(list, vec![(0, 3)]),
        _ => panic!("a substitution is due"),
    }
    assert_eq!(graph.fixed_nodes, set(&[2, 3]));
    assert!(assumed.is_empty());

    // Nothing fixes free, which no one relies on: the constraint that is left asks for
    // nothing, and is put aside.
    let step = graph.analysis_step(&view, &as_stored(&store, &graph), &mut assumed);
    assert!(matches!(step, FrameStep::Assumed));
    assert!(assumed.is_empty());
    assert!(!graph.has_active_unsafe_constraints());

    let step = graph.analysis_step(&view, &as_stored(&store, &graph), &mut assumed);
    assert!(matches!(step, FrameStep::AtRest));
    assert!(graph.safe_assignments[0].active);
    let result = graph.verdict(&view, &as_stored(&store, &graph), vec![], assumed);
    assert_eq!(
        result.get_error_string().unwrap(),
        "[Unsafe] Component 'main' is unsafe. Output 's1' is not fixed by inputs"
    );
}

// Signals: out = 1, in = 2, a = 3. The list of safe assignments is out of order, names a
// constraint twice, and names a constraint of another component.
//   0: a <== in     1: out <== a
#[test]
fn safe_assignments_follow_the_order_of_the_constraints() {
    let store = storage(vec![
        constraint(&[], &[], &[(2, "1"), (3, "16")]),
        constraint(&[], &[], &[(1, "16"), (3, "1")]),
        constraint(&[], &[], &[(1, "1")]),
    ]);
    let data = context(leaf("main", 1, 1, 1, 3, 0, 2, vec![(1, 1), (2, 1), (0, 3), (1, 3)]), 3);
    let view = data.get_context_view().unwrap();
    assert!(data.tree_constraints.check_frame(store.len()));
    let graph = VerificationGraph::new(&view, &store);
    let safe: Vec<(usize, Vec<usize>, usize)> = graph
        .safe_assignments
        .iter()
        .map(|a| (a.lhs_signal, a.rhs_signals.iter().copied().collect(), a.associated_constraint))
        .collect();
    assert_eq!(safe, vec![(3, vec![2], 0), (1, vec![3], 1)]);
    assert!(graph.unsafe_constraints.is_empty());
    assert_eq!(
        graph.incoming_safe_assignments,
        [(3, 0), (1, 1)].into_iter().collect::<BTreeMap<_, _>>()
    );
}

// Signals: a = 1, b = 2, c = 3 (outputs), in = 4.
#[test]
fn a_cycle_through_three_products_is_found() {
    let products = |third: Constraint| {
        storage(vec![
            constraint(&[(1, "1")], &[(2, "1")], &[(4, "16")]),
            constraint(&[(2, "1")], &[(3, "1")], &[(4, "16")]),
            third,
        ])
    };
    let data = context(leaf("main", 1, 3, 1, 4, 0, 3, vec![]), 4);
    let view = data.get_context_view().unwrap();

    // a * b = in, b * c = in, c * a = in: a cycle a - b - c - a.
    let store = products(constraint(&[(3, "1")], &[(1, "1")], &[(4, "16")]));
    let mut graph = VerificationGraph::new(&view, &store);
    graph.propagate(&as_stored(&store, &graph));
    let reduced = as_stored(&store, &graph);
    assert_eq!(
        graph.extract_polynomial_systems(&view, &reduced).err(),
        Some(VerificationException::NoUnsafeConstraintConnectedComponentWithoutCycles)
    );

    // a * b = in, b * c = in, c * c = in: a chain, which is no cycle.
    let store = products(constraint(&[(3, "1")], &[(3, "1")], &[(4, "16")]));
    let mut graph = VerificationGraph::new(&view, &store);
    graph.propagate(&as_stored(&store, &graph));
    let reduced = as_stored(&store, &graph);
    let systems = graph.extract_polynomial_systems(&view, &reduced).unwrap();
    assert_eq!(systems.len(), 1);
    assert_eq!(systems[0].constraints.len(), 3);
    assert_eq!(systems[0].signals_to_fix, set(&[1, 2, 3]));

    // a * b = in, b * c = in, c + a = in: the linear constraint breaks the cycle.
    let store = products(constraint(&[], &[], &[(1, "1"), (3, "1"), (4, "16")]));
    let mut graph = VerificationGraph::new(&view, &store);
    graph.propagate(&as_stored(&store, &graph));
    let reduced = as_stored(&store, &graph);
    assert_eq!(graph.extract_polynomial_systems(&view, &reduced).unwrap().len(), 1);
}
