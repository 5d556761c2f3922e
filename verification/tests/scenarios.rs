use circuit_verification::algebra::{Constraint, ConstraintStorage, LinearTerm};
use circuit_verification::cas_driver::{CasReaction, CasSession, SessionState};
use circuit_verification::cli::Options;
use circuit_verification::frame::check_outputs_named;
use circuit_verification::input_data::{InputDataContext, TreeConstraints};
use circuit_verification::numbers::BigInteger;
use circuit_verification::polynomial_system_fixer::{
    display_unverified_modules, generate_cocoa_script, get_prohibition_witness_polynomial,
    optimize_pol_system, SignalDisplayKind,
};
use circuit_verification::verdict::{
    verify, ModuleUnsafeReason, SubComponentVerificationResultKind, VerificationStep,
};
use circuit_verification::verification_graph::VerificationGraph;
use std::collections::BTreeMap;

const PRIME: &str = "21888242871839275222246405745257275088548364400416034343698204186575808495617";
const MINUS_ONE: &str =
    "21888242871839275222246405745257275088548364400416034343698204186575808495616";

fn number(text: &str) -> BigInteger {
    BigInteger::parse(text).unwrap()
}

fn term(summands: &[(usize, &str)]) -> LinearTerm {
    LinearTerm::from_sorted(summands.iter().map(|(s, c)| (*s, number(c))).collect()).unwrap()
}

fn constraint(a: &[(usize, &str)], b: &[(usize, &str)], c: &[(usize, &str)]) -> Constraint {
    Constraint::new(term(a), term(b), term(c))
}

fn storage(constraints: Vec<Constraint>) -> ConstraintStorage {
    let mut storage = ConstraintStorage::new();
    for c in constraints {
        storage.add_constraint(c);
    }
    storage
}

fn tree(
    name: &str,
    outputs: usize,
    inputs: usize,
    signals: usize,
    constraints: usize,
    double_arrows: Vec<(usize, usize)>,
) -> TreeConstraints {
    TreeConstraints {
        field: PRIME.to_string(),
        no_constraints: constraints,
        initial_constraint: 0,
        node_id: 0,
        template_name: "Template".to_string(),
        component_name: name.to_string(),
        number_inputs: inputs,
        number_outputs: outputs,
        number_signals: signals,
        initial_signal: 1,
        are_double_arrow: double_arrows,
        subcomponents: vec![],
    }
}

fn context(
    tree: TreeConstraints,
    witness: &[(usize, &str)],
    names: &[(usize, &str)],
) -> InputDataContext {
    InputDataContext {
        witness: witness.iter().map(|(s, v)| (*s, number(v))).collect::<BTreeMap<_, _>>(),
        signal_name_map: names.iter().map(|(s, n)| (*s, n.to_string())).collect::<BTreeMap<_, _>>(),
        tree_constraints: tree,
        base_path: "artifacts".to_string(),
        options: Options::default(),
    }
}

fn reductions(storage: &ConstraintStorage, graph: &VerificationGraph) -> Vec<Constraint> {
    graph
        .unsafe_constraints
        .iter()
        .map(|c| storage.read_constraint(c.associated_constraint).unwrap().clone())
        .collect()
}

fn propagate(graph: &mut VerificationGraph, storage: &ConstraintStorage) -> usize {
    let mut sweeps = 0;
    loop {
        let reduced = reductions(storage, graph);
        let outcome = graph.propagation_sweep(&reduced);
        sweeps += 1;
        if !outcome.progress {
            return sweeps;
        }
        assert!(sweeps < 100);
    }
}

// out <== in, and in * (in - 1) = 0. Signals: out = 1, in = 2.
#[test]
fn single_assignment_is_safe_without_obligations() {
    let store = storage(vec![
        constraint(&[], &[], &[(1, MINUS_ONE), (2, "1")]),
        constraint(&[(2, "1")], &[(0, MINUS_ONE), (2, "1")], &[]),
    ]);
    let data = context(
        tree("main", 1, 1, 2, 2, vec![(0, 1)]),
        &[(1, "1"), (2, "1")],
        &[(1, "out"), (2, "in")],
    );
    assert!(data.tree_constraints.check_frame(store.len()));
    let view = data.get_context_view().unwrap();
    let mut graph = VerificationGraph::new(&view, &store);

    assert_eq!(graph.safe_assignments.len(), 1);
    assert_eq!(graph.unsafe_constraints.len(), 1);
    assert!(graph.fixed_nodes.contains(&2));
    assert!(!graph.fixed_nodes.contains(&1));

    let sweeps = propagate(&mut graph, &store);
    assert_eq!(sweeps, 2);
    assert!(graph.fixed_nodes.contains(&1));
    assert!(!graph.safe_assignments[0].active);
    assert!(!graph.unsafe_constraints[0].active);
    assert!(!graph.has_active_unsafe_constraints());

    let reduced = reductions(&store, &graph);
    let result = graph.verdict(&view, &reduced, vec![], vec![]);
    assert_eq!(result.subcomponent_name, "main");
    match &result.kind {
        SubComponentVerificationResultKind::ModuleConditionallySafe(conditions) => {
            assert!(conditions.pol_systems.is_empty());
            assert!(conditions.subcomponents.is_empty());
        }
        _ => panic!("a safe verdict is due"),
    }
    let outline = verify(&result);
    assert!(matches!(outline.step, VerificationStep::Safe));
    assert_eq!(
        outline.messages,
        vec!["No polynomial systems to fix. Finished. Module is safe!".to_string()]
    );
}

// out <== -in * inv + 1, and in * out = 0. Signals: out = 1, in = 2, inv = 3.
#[test]
fn is_zero_asks_for_one_polynomial_system() {
    let store = storage(vec![
        constraint(&[(2, "1")], &[(3, "1")], &[(0, MINUS_ONE), (1, "1")]),
        constraint(&[(2, "1")], &[(1, "1")], &[]),
    ]);
    let data = context(
        tree("main", 1, 1, 3, 2, vec![(0, 1)]),
        &[(1, "1"), (2, "0"), (3, "0")],
        &[(1, "out"), (2, "in"), (3, "inv")],
    );
    let view = data.get_context_view().unwrap();
    let mut graph = VerificationGraph::new(&view, &store);
    let sweeps = propagate(&mut graph, &store);
    assert_eq!(sweeps, 1);
    assert!(!graph.fixed_nodes.contains(&1));
    assert!(graph.safe_assignments[0].active);
    assert!(graph.unsafe_constraints[0].active);

    let reduced = reductions(&store, &graph);
    let result = graph.verdict(&view, &reduced, vec![], vec![]);
    let systems = match verify(&result).step {
        VerificationStep::Submit(systems) => systems,
        _ => panic!("one system is to be settled"),
    };
    assert_eq!(systems.len(), 1);
    assert_eq!(systems[0].constraints.len(), 1);
    assert_eq!(systems[0].signals_to_fix.iter().copied().collect::<Vec<_>>(), vec![1]);
    assert_eq!(systems[0].component_name, "main");
    assert_eq!(systems[0].template_name, "Template");

    let optimized: Vec<_> = systems.iter().map(|s| optimize_pol_system(s, &view)).collect();
    assert!(!optimized[0].signals_to_fix[&1].is_boolean);
    let script = generate_cocoa_script(&optimized, &view);
    let expected = format!(
        "p := {PRIME};\nuse F ::= ZZ/(p);\n\nuse R ::= F[x_1, x_2, u_1];\n\nI := ideal(x_2 * x_1,\n((x_1 - 1)*u_1 - 1));\n\nTry\n    B := GBasisTimeout(I, 5);\n\n    If not(1 IsIn I) Then\n        println \"ERROR: 0\";\n        exit;\n    Else;\n        println \"OK: 0\";\n    EndIf;\nUponError E Do\n    println \"TIMEOUT: 0\";\nEndTry;\n\n\nprintln \"FINISHED\";\n"
    );
    assert_eq!(script, expected);

    let mut session = CasSession::new(systems.len());
    assert_eq!(session.on_line("OK: 0"), CasReaction::Continue(None));
    assert_eq!(session.on_line("FINISHED"), CasReaction::Done(true));
    assert_eq!(session.state(), SessionState::Finished);
    assert_eq!(session.on_end_of_output(), Some(true));

    // Once the system is taken to hold, the output is fixed and nothing is left over.
    graph.assume_systems_hold(&systems);
    assert!(graph.fixed_nodes.contains(&1));
    assert!(!graph.has_active_unsafe_constraints());
}

fn binary_decomposition(bits: usize) -> (ConstraintStorage, InputDataContext) {
    // Outputs b_0 .. b_{bits-1} are the signals 1 .. bits; the input is the signal bits + 1.
    let mut constraints = vec![];
    for bit in 1..=bits {
        constraints.push(constraint(&[(bit, "1")], &[(0, MINUS_ONE), (bit, "1")], &[]));
    }
    let mut sum: Vec<(usize, BigInteger)> = vec![];
    let mut power = BigInteger::from_usize(1);
    let zero = BigInteger::from_usize(0);
    for bit in 1..=bits {
        sum.push((bit, power.clone()));
        // power := power + power, as power - (0 - power)
        power = power.sub(&zero.sub(&power));
    }
    sum.push((bits + 1, number(MINUS_ONE)));
    constraints.push(Constraint::new(
        LinearTerm::new(),
        LinearTerm::new(),
        LinearTerm::from_sorted(sum).unwrap(),
    ));
    let mut witness: Vec<(usize, String)> = (1..=bits).map(|s| (s, ((s % 2) as u8).to_string())).collect();
    witness.push((bits + 1, "5".to_string()));
    let names: Vec<(usize, String)> = (1..=bits)
        .map(|s| (s, format!("b[{}]", s - 1)))
        .chain(std::iter::once((bits + 1, "in".to_string())))
        .collect();
    let data = InputDataContext {
        witness: witness.iter().map(|(s, v)| (*s, number(v))).collect(),
        signal_name_map: names.into_iter().collect(),
        tree_constraints: tree("main.bits", bits, 1, bits + 1, bits + 1, vec![]),
        base_path: "artifacts".to_string(),
        options: Options::default(),
    };
    (storage(constraints), data)
}

#[test]
fn eight_bit_decomposition_has_eight_boolean_factors() {
    let (store, data) = binary_decomposition(8);
    let view = data.get_context_view().unwrap();
    let mut graph = VerificationGraph::new(&view, &store);
    assert_eq!(propagate(&mut graph, &store), 1);
    let reduced = reductions(&store, &graph);
    let systems = graph.extract_polynomial_systems(&view, &reduced).unwrap();
    assert_eq!(systems.len(), 1);
    assert_eq!(systems[0].constraints.len(), 9);
    assert_eq!(
        systems[0].signals_to_fix.iter().copied().collect::<Vec<_>>(),
        (1..=8).collect::<Vec<_>>()
    );
    let optimized = optimize_pol_system(&systems[0], &view);
    assert!(optimized.signals_to_fix.values().all(|data| data.is_boolean));
    let prohibition = get_prohibition_witness_polynomial(
        &optimized.signals_to_fix,
        &view,
        SignalDisplayKind::Index,
    );
    assert_eq!(prohibition.num_vars, 8);
    assert_eq!(
        prohibition.string,
        "(x_1 - 0) * (x_2 - 1) * (x_3 - 0) * (x_4 - 1) * (x_5 - 0) * (x_6 - 1) * (x_7 - 0) * (x_8 - 1)"
    );
    let script = generate_cocoa_script(&vec![optimized], &view);
    assert!(script.contains("use R ::= F[x_1, x_2, x_3, x_4, x_5, x_6, x_7, x_8, x_9];"));
    assert!(script.contains("x_1 + 2*x_2 + 4*x_3 + 8*x_4 + 16*x_5 + 32*x_6 + 64*x_7 + 128*x_8 - x_9,\n"));
    assert!(script.contains("B := GBasisTimeout(I, 5);"));
    assert!(!script.contains("u_"));
}

// out <== mid, where nothing defines mid. Signals: out = 1, mid = 2.
#[test]
fn output_from_an_undefined_intermediate_is_unsafe() {
    let store = storage(vec![constraint(&[], &[], &[(1, MINUS_ONE), (2, "1")])]);
    let data = context(
        tree("main", 1, 0, 2, 1, vec![(0, 1)]),
        &[(1, "3"), (2, "3")],
        &[(1, "out"), (2, "mid")],
    );
    let view = data.get_context_view().unwrap();
    let mut graph = VerificationGraph::new(&view, &store);
    assert_eq!(propagate(&mut graph, &store), 1);
    let reduced = reductions(&store, &graph);
    let result = graph.verdict(&view, &reduced, vec![], vec![]);
    match &result.kind {
        SubComponentVerificationResultKind::ModuleUnsafe(
            ModuleUnsafeReason::UnfixedOutputsAfterPropagation(names),
        ) => assert_eq!(names, &vec!["out".to_string()]),
        _ => panic!("the output is not fixed"),
    }
    let outline = verify(&result);
    assert!(matches!(outline.step, VerificationStep::Unsafe));
    assert_eq!(
        outline.messages,
        vec![
            "[Unsafe] Component 'main' is unsafe. Output 'out' is not fixed by inputs".to_string(),
            "1 unsafe modules found, 0 exceptions found on verification graph traversal. Aborting safety verification...".to_string(),
        ]
    );
}

#[test]
fn two_hundred_bits_are_given_up_as_timed_out() {
    let (store, data) = binary_decomposition(200);
    let view = data.get_context_view().unwrap();
    let mut graph = VerificationGraph::new(&view, &store);
    propagate(&mut graph, &store);
    let reduced = reductions(&store, &graph);
    let systems = graph.extract_polynomial_systems(&view, &reduced).unwrap();
    assert_eq!(systems.len(), 1);
    let optimized = optimize_pol_system(&systems[0], &view);
    let prohibition = get_prohibition_witness_polynomial(
        &optimized.signals_to_fix,
        &view,
        SignalDisplayKind::Index,
    );
    assert_eq!(prohibition.num_vars, 200);
    let script = generate_cocoa_script(&vec![optimized], &view);
    assert_eq!(
        script,
        format!("p := {PRIME};\nuse F ::= ZZ/(p);\n\nprintln \"TIMEOUT: 0\";\n\n\nprintln \"FINISHED\";\n")
    );

    let mut session = CasSession::new(1);
    assert_eq!(session.on_line("TIMEOUT: 0"), CasReaction::Continue(None));
    assert_eq!(session.on_line("FINISHED"), CasReaction::Done(false));
    assert_eq!(session.timed_outs(), &vec![0]);
    assert!(session.many_solutions().is_empty());
    assert_eq!(
        display_unverified_modules(&systems, session.timed_outs(), "timeout"),
        "Failed to verify due to timeout 1 polynomial systems in 1 components: [main.bits: Template]"
    );
}

fn analyse(
    view: &circuit_verification::input_data::InputDataContextView,
    store: &ConstraintStorage,
) -> circuit_verification::verdict::SubComponentVerificationResult {
    assert!(view.tree_constraints.check_frame(store.len()));
    let mut graph = VerificationGraph::new(view, store);
    let mut assumed = vec![];
    loop {
        let reduced = reductions(store, &graph);
        match graph.analysis_step(view, &reduced, &mut assumed) {
            circuit_verification::frame::FrameStep::AtRest => break,
            _ => {}
        }
    }
    let below: Vec<_> = graph
        .activated_subcomponents()
        .into_iter()
        .map(|index| analyse(&view.get_subcomponent_context_view(index), store))
        .collect();
    graph.verdict(view, &reductions(store, &graph), below, assumed)
}

// main: out = 1, in = 2; below it main.square: out = 3, in = 4, and main.loose: out = 5, in = 6.
//   0: square.in <== in       (main, safe)
//   1: loose.in <== in        (main, safe)
//   2: out <== square.out     (main, safe)
//   3: square.out <== in * in (main.square, safe)
//   4: loose.out * loose.out = loose.in   (main.loose, unsafe)
#[test]
fn a_tree_of_components_is_analysed_from_the_top() {
    let store = storage(vec![
        constraint(&[], &[], &[(2, "1"), (4, MINUS_ONE)]),
        constraint(&[], &[], &[(2, "1"), (6, MINUS_ONE)]),
        constraint(&[], &[], &[(1, MINUS_ONE), (3, "1")]),
        constraint(&[(4, "1")], &[(4, "1")], &[(3, MINUS_ONE)]),
        constraint(&[(5, "1")], &[(5, "1")], &[(6, MINUS_ONE)]),
    ]);
    let mut main = tree("main", 1, 1, 6, 3, vec![(0, 4), (1, 6), (2, 1)]);
    let mut square = tree("main.square", 1, 1, 2, 1, vec![(3, 3)]);
    square.initial_signal = 3;
    square.initial_constraint = 3;
    square.node_id = 1;
    let mut loose = tree("main.loose", 1, 1, 2, 1, vec![]);
    loose.initial_signal = 5;
    loose.initial_constraint = 4;
    loose.node_id = 2;
    main.subcomponents = vec![square, loose];
    assert!(main.check_tree());
    let data = context(
        main,
        &[(1, "4"), (2, "2"), (3, "4"), (4, "2"), (5, "3"), (6, "2")],
        &[(1, "out"), (2, "in"), (3, "square.out"), (4, "square.in"), (5, "loose.out"), (6, "loose.in")],
    );
    let view = data.get_context_view().unwrap();
    let result = analyse(&view, &store);

    let conditions = match &result.kind {
        SubComponentVerificationResultKind::ModuleConditionallySafe(conditions) => conditions,
        _ => panic!("main is safe on condition"),
    };
    assert!(conditions.pol_systems.is_empty());
    let names: Vec<&str> =
        conditions.subcomponents.iter().map(|r| r.subcomponent_name.as_str()).collect();
    assert_eq!(names, vec!["main.square", "main.loose"]);
    match &conditions.subcomponents[0].kind {
        SubComponentVerificationResultKind::ModuleConditionallySafe(below) => {
            assert!(below.pol_systems.is_empty() && below.subcomponents.is_empty())
        }
        _ => panic!("main.square is safe"),
    }
    let systems = match verify(&result).step {
        VerificationStep::Submit(systems) => systems,
        _ => panic!("the system of main.loose is to be settled"),
    };
    assert_eq!(systems.len(), 1);
    assert_eq!(systems[0].component_name, "main.loose");
    assert_eq!(systems[0].signals_to_fix.iter().copied().collect::<Vec<_>>(), vec![5]);
    let below = view.get_subcomponent_context_view(1);
    let optimized = optimize_pol_system(&systems[0], &below);
    let script = generate_cocoa_script(&vec![optimized], &below);
    assert!(script.contains("use R ::= F[x_5, x_6, u_5];"));
    assert!(script.contains("I := ideal(x_5 * x_5 - x_6,\n((x_5 - 3)*u_5 - 1));"));
}

#[test]
fn a_verdict_needs_the_names_of_the_outputs() {
    let all = context(tree("main", 2, 1, 4, 0, vec![]), &[], &[(1, "a"), (2, "b"), (3, "in")]);
    assert!(check_outputs_named(&all.get_context_view().unwrap()));
    let inputs_only = context(tree("main", 2, 1, 4, 0, vec![]), &[], &[(1, "a"), (3, "in")]);
    assert!(!check_outputs_named(&inputs_only.get_context_view().unwrap()));
    let no_outputs = context(tree("main", 0, 1, 4, 0, vec![]), &[], &[]);
    assert!(check_outputs_named(&no_outputs.get_context_view().unwrap()));
}
