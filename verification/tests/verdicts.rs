use circuit_verification::verdict::{
    conclusion_message, flatten_verification_result_and_report_errors, verify, ModuleUnsafeReason,
    PolynomialSystemFixedSignal, SafetyConditions, SubComponentVerificationResult,
    SubComponentVerificationResultKind, VerificationException, VerificationStep,
};
use std::cell::RefCell;
use std::collections::BTreeSet;

fn exception(name: &str) -> SubComponentVerificationResult {
    SubComponentVerificationResult {
        kind: SubComponentVerificationResultKind::Exception(
            VerificationException::NoUnsafeConstraintConnectedComponentWithoutCycles,
        ),
        subcomponent_name: name.to_string(),
    }
}

fn unfixed(name: &str, outputs: &[&str]) -> SubComponentVerificationResult {
    SubComponentVerificationResult {
        kind: SubComponentVerificationResultKind::ModuleUnsafe(
            ModuleUnsafeReason::UnfixedOutputsAfterPropagation(
                outputs.iter().map(|s| s.to_string()).collect(),
            ),
        ),
        subcomponent_name: name.to_string(),
    }
}

fn safe(
    name: &str,
    subcomponents: Vec<SubComponentVerificationResult>,
    pol_systems: Vec<PolynomialSystemFixedSignal>,
) -> SubComponentVerificationResult {
    SubComponentVerificationResult {
        kind: SubComponentVerificationResultKind::ModuleConditionallySafe(SafetyConditions {
            subcomponents,
            pol_systems,
        }),
        subcomponent_name: name.to_string(),
    }
}

fn system(component: &str, signals: &[usize]) -> PolynomialSystemFixedSignal {
    PolynomialSystemFixedSignal {
        constraints: vec![],
        signals_to_fix: signals.iter().copied().collect::<BTreeSet<_>>(),
        template_name: "T".to_string(),
        component_name: component.to_string(),
    }
}

#[test]
fn test_verification_result_error_printing() {
    let a = safe(
        "main",
        vec![
            exception("main.first"),
            unfixed("main.second", &["out1", "out2"]),
            safe("main.third", vec![exception("main.third.one")], vec![]),
        ],
        vec![],
    );

    let flat = flatten_verification_result_and_report_errors(&a);
    assert!(flat.polynomial_systems_to_prove.is_none());
    assert_eq!(flat.num_unsafe_found, 1);
    assert_eq!(flat.num_exceptions_found, 2);
    assert_eq!(
        flat.messages,
        vec![
            "[Exception] Cyclic dependencies between === constraints connected component in component 'main.first', cannot determine safety".to_string(),
            "[Unsafe] Component 'main.second' is unsafe. Outputs 'out1', 'out2' are not fixed by inputs".to_string(),
            "[Exception] Cyclic dependencies between === constraints connected component in component 'main.third.one', cannot determine safety".to_string(),
            "1 unsafe modules found, 2 exceptions found on verification graph traversal. Aborting safety verification...".to_string(),
        ]
    );
}

#[test]
fn error_strings_name_the_component_and_its_outputs() {
    assert_eq!(safe("main", vec![], vec![]).get_error_string(), None);
    assert_eq!(
        unfixed("main", &["out"]).get_error_string().unwrap(),
        "[Unsafe] Component 'main' is unsafe. Output 'out' is not fixed by inputs"
    );
    assert_eq!(
        unfixed("main", &[]).get_error_string().unwrap(),
        "[Unsafe] Component 'main' is unsafe. Outputs  are not fixed by inputs"
    );
    assert_eq!(
        unfixed("main", &["a", "b", "c"]).get_error_string().unwrap(),
        "[Unsafe] Component 'main' is unsafe. Outputs 'a', 'b', 'c' are not fixed by inputs"
    );
    assert_eq!(
        exception("main.sub").get_error_string().unwrap(),
        "[Exception] Cyclic dependencies between === constraints connected component in component 'main.sub', cannot determine safety"
    );
}

#[test]
fn systems_are_gathered_in_the_order_of_the_traversal() {
    let tree = safe(
        "main",
        vec![
            safe("main.a", vec![safe("main.a.x", vec![], vec![system("main.a.x", &[7])])], vec![system("main.a", &[3])]),
            safe("main.b", vec![], vec![system("main.b", &[4]), system("main.b", &[5])]),
        ],
        vec![system("main", &[1])],
    );
    let flat = flatten_verification_result_and_report_errors(&tree);
    assert!(flat.messages.is_empty());
    assert_eq!(flat.num_unsafe_found, 0);
    assert_eq!(flat.num_exceptions_found, 0);
    let systems = flat.polynomial_systems_to_prove.unwrap();
    let order: Vec<(String, Vec<usize>)> = systems
        .iter()
        .map(|s| (s.component_name.clone(), s.signals_to_fix.iter().copied().collect()))
        .collect();
    assert_eq!(
        order,
        vec![
            ("main".to_string(), vec![1]),
            ("main.a".to_string(), vec![3]),
            ("main.a.x".to_string(), vec![7]),
            ("main.b".to_string(), vec![4]),
            ("main.b".to_string(), vec![5]),
        ]
    );

    match verify(&tree).step {
        VerificationStep::Submit(systems) => assert_eq!(systems.len(), 5),
        _ => panic!("the systems are to be settled"),
    }
    assert_eq!(
        verify(&tree).messages,
        vec!["No exceptions or errors reported when traversing tree. Fixing polynomial systems...\n".to_string()]
    );
}

#[test]
fn apply_visits_a_verdict_before_the_verdicts_below_it() {
    let tree = safe(
        "main",
        vec![safe("main.a", vec![exception("main.a.x")], vec![]), unfixed("main.b", &["o"])],
        vec![],
    );
    let seen = RefCell::new(Vec::<String>::new());
    tree.apply(&|node: &SubComponentVerificationResult| {
        seen.borrow_mut().push(node.subcomponent_name.clone());
    });
    assert_eq!(
        seen.into_inner(),
        vec!["main".to_string(), "main.a".to_string(), "main.a.x".to_string(), "main.b".to_string()]
    );
}

#[test]
fn conclusions_are_worded() {
    assert_eq!(conclusion_message(true), "\nMODULE SAFE: all polynomials systems have been fixed");
    assert_eq!(
        conclusion_message(false),
        "\nCouldn't fix a polynomial system. Aborting verification..."
    );
}
