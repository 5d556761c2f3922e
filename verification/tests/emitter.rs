use circuit_verification::algebra::{Constraint, LinearTerm};
use circuit_verification::cli::Options;
use circuit_verification::input_data::{InputDataContext, TreeConstraints};
use circuit_verification::numbers::BigInteger;
use circuit_verification::polynomial_system_fixer::{
    check_signals_to_fix_covered, check_system_named,
    coefficient_to_string, display_ith_pol_system_progress, display_polynomial_system_readable,
    display_unverified_modules, get_cocoa_subscript, get_constraint_polynomial,
    get_prohibition_witness_polynomial, is_constraint_binary_restriction, linear_term_to_string,
    optimize_pol_system, OptimizedPolynomialSystemFixedSignal, SignalDisplayKind, SignalToFixData,
};
use circuit_verification::verdict::PolynomialSystemFixedSignal;
use std::collections::{BTreeMap, BTreeSet};

fn number(text: &str) -> BigInteger {
    BigInteger::parse(text).unwrap()
}

fn term(summands: &[(usize, &str)]) -> LinearTerm {
    LinearTerm::from_sorted(summands.iter().map(|(s, c)| (*s, number(c))).collect()).unwrap()
}

fn constraint(a: &[(usize, &str)], b: &[(usize, &str)], c: &[(usize, &str)]) -> Constraint {
    Constraint::new(term(a), term(b), term(c))
}

// The field of 17 elements, with four named signals.
fn small_context(options: Options) -> InputDataContext {
    InputDataContext {
        witness: [(1, "3"), (2, "1"), (3, "0"), (4, "16")]
            .iter()
            .map(|(s, v)| (*s, number(v)))
            .collect::<BTreeMap<_, _>>(),
        signal_name_map: [(1, "out"), (2, "in"), (3, "bit"), (4, "-odd")]
            .iter()
            .map(|(s, n)| (*s, n.to_string()))
            .collect::<BTreeMap<_, _>>(),
        tree_constraints: TreeConstraints {
            field: "17".to_string(),
            no_constraints: 0,
            initial_constraint: 0,
            node_id: 0,
            template_name: "T".to_string(),
            component_name: "main".to_string(),
            number_inputs: 1,
            number_outputs: 1,
            number_signals: 4,
            initial_signal: 1,
            are_double_arrow: vec![],
            subcomponents: vec![],
        },
        base_path: ".".to_string(),
        options,
    }
}

#[test]
fn coefficients_above_half_of_the_prime_are_written_as_negatives() {
    let p = number("17");
    assert_eq!(coefficient_to_string(&number("0"), &p), "0");
    assert_eq!(coefficient_to_string(&number("1"), &p), "1");
    assert_eq!(coefficient_to_string(&number("8"), &p), "8");
    assert_eq!(coefficient_to_string(&number("9"), &p), "-8");
    assert_eq!(coefficient_to_string(&number("16"), &p), "-1");
    assert_eq!(coefficient_to_string(&number("4"), &number("8")), "4");
    assert_eq!(coefficient_to_string(&number("5"), &number("8")), "-3");
}

#[test]
fn linear_terms_are_written_as_sums() {
    let data = small_context(Options::default());
    let view = data.get_context_view().unwrap();
    let index = SignalDisplayKind::Index;
    let name = SignalDisplayKind::Name;
    assert_eq!(linear_term_to_string(&term(&[]), &view, true, index), "0");
    assert_eq!(linear_term_to_string(&term(&[(2, "1")]), &view, true, index), "x_2");
    assert_eq!(linear_term_to_string(&term(&[(2, "1")]), &view, true, name), "in");
    assert_eq!(linear_term_to_string(&term(&[(2, "16")]), &view, false, index), "-x_2");
    assert_eq!(linear_term_to_string(&term(&[(2, "3")]), &view, false, index), "3*x_2");
    assert_eq!(linear_term_to_string(&term(&[(2, "15")]), &view, false, index), "-2*x_2");
    assert_eq!(linear_term_to_string(&term(&[(0, "16")]), &view, true, index), "-1");
    assert_eq!(
        linear_term_to_string(&term(&[(0, "16"), (2, "1")]), &view, true, index),
        "(-1 + x_2)"
    );
    assert_eq!(
        linear_term_to_string(&term(&[(0, "16"), (2, "1")]), &view, false, index),
        "-1 + x_2"
    );
    assert_eq!(
        linear_term_to_string(&term(&[(0, "5"), (1, "16"), (2, "14"), (3, "2")]), &view, true, name),
        "(5 - out - 3*in + 2*bit)"
    );
    // A name that begins with a minus sign is taken for a negative summand.
    assert_eq!(
        linear_term_to_string(&term(&[(1, "1"), (4, "1")]), &view, false, name),
        "out - odd"
    );
}

#[test]
fn constraints_are_written_as_polynomials() {
    let data = small_context(Options::default());
    let view = data.get_context_view().unwrap();
    let index = SignalDisplayKind::Index;
    let write = |c: &Constraint| get_constraint_polynomial(c, &view, index);
    assert_eq!(write(&constraint(&[], &[], &[])), "0");
    assert_eq!(write(&constraint(&[], &[], &[(1, "16"), (2, "1")])), "-x_1 + x_2");
    assert_eq!(write(&constraint(&[(2, "1")], &[], &[(1, "1")])), "x_1");
    assert_eq!(write(&constraint(&[(2, "1")], &[(1, "1")], &[])), "x_2 * x_1");
    assert_eq!(
        write(&constraint(&[(2, "1")], &[(0, "16"), (2, "1")], &[])),
        "x_2 * (-1 + x_2)"
    );
    assert_eq!(
        write(&constraint(&[(2, "1")], &[(3, "1")], &[(0, "16"), (1, "1")])),
        "x_2 * x_3 - 1 + x_1"
    );
    assert_eq!(
        write(&constraint(&[(2, "1")], &[(3, "1")], &[(1, "1")])),
        "x_2 * x_3 + x_1"
    );
    assert_eq!(
        get_constraint_polynomial(
            &constraint(&[(2, "2"), (3, "1")], &[(3, "1")], &[(1, "16")]),
            &view,
            SignalDisplayKind::Name
        ),
        "(2*in + bit) * bit - out"
    );
}

#[test]
fn boolean_restrictions_are_recognised_in_either_order() {
    let p = number("17");
    let found = |c: &Constraint| is_constraint_binary_restriction(c, &p);
    assert_eq!(found(&constraint(&[(3, "1")], &[(0, "16"), (3, "1")], &[])), Some(3));
    assert_eq!(found(&constraint(&[(0, "16"), (3, "1")], &[(3, "1")], &[])), Some(3));
    // The constant has to be congruent to -1.
    assert_eq!(found(&constraint(&[(3, "1")], &[(0, "15"), (3, "1")], &[])), None);
    assert_eq!(found(&constraint(&[(3, "1")], &[(0, "1"), (3, "1")], &[])), None);
    assert_eq!(found(&constraint(&[(3, "1")], &[(0, "0"), (3, "1")], &[])), None);
    // Both coefficients of the signal have to be congruent to one.
    assert_eq!(found(&constraint(&[(3, "2")], &[(0, "16"), (3, "1")], &[])), None);
    assert_eq!(found(&constraint(&[(3, "1")], &[(0, "16"), (3, "2")], &[])), None);
    assert_eq!(found(&constraint(&[(3, "-1")], &[(0, "16"), (3, "1")], &[])), None);
    assert_eq!(found(&constraint(&[(3, "0")], &[(0, "16"), (3, "1")], &[])), None);
    // One signal only, no linear part, a constant.
    assert_eq!(found(&constraint(&[(2, "1")], &[(0, "16"), (3, "1")], &[])), None);
    assert_eq!(found(&constraint(&[(3, "1")], &[(0, "16"), (3, "1")], &[(3, "1")])), None);
    assert_eq!(found(&constraint(&[(3, "1")], &[(3, "1")], &[])), None);
    assert_eq!(found(&constraint(&[(3, "1")], &[(0, "16")], &[])), None);
    assert_eq!(found(&constraint(&[], &[], &[])), None);
    // With another prime the same constant is no longer the residue of -1.
    assert_eq!(
        is_constraint_binary_restriction(
            &constraint(&[(3, "1")], &[(0, "16"), (3, "1")], &[]),
            &number("19")
        ),
        None
    );
}

#[test]
fn boolean_restrictions_are_recognised_whatever_stands_for_a_residue() {
    let p = number("17");
    let found = |c: &Constraint| is_constraint_binary_restriction(c, &p);
    assert_eq!(found(&constraint(&[(3, "1")], &[(0, "-1"), (3, "1")], &[])), Some(3));
    assert_eq!(found(&constraint(&[(3, "1")], &[(0, "33"), (3, "1")], &[])), Some(3));
    assert_eq!(found(&constraint(&[(3, "18")], &[(0, "-18"), (3, "-16")], &[])), Some(3));
    assert_eq!(found(&constraint(&[(0, "50"), (3, "35")], &[(3, "-33")], &[])), Some(3));
    assert_eq!(found(&constraint(&[(3, "18")], &[(0, "-18"), (3, "-15")], &[])), None);

    let seven = number("7");
    let c = constraint(&[(3, "8")], &[(0, "-1"), (3, "1")], &[]);
    assert_eq!(is_constraint_binary_restriction(&c, &seven), Some(3));
    assert_eq!(is_constraint_binary_restriction(&c, &number("-7")), Some(3));
    assert_eq!(is_constraint_binary_restriction(&c, &number("5")), None);
    // Modulo zero only the numbers themselves will do.
    assert_eq!(is_constraint_binary_restriction(&c, &number("0")), None);
    let plain = constraint(&[(3, "1")], &[(0, "-1"), (3, "1")], &[]);
    assert_eq!(is_constraint_binary_restriction(&plain, &number("0")), Some(3));
}

fn fix(signals: &[(usize, bool)]) -> BTreeMap<usize, SignalToFixData> {
    signals.iter().map(|(s, b)| (*s, SignalToFixData { is_boolean: *b })).collect()
}

#[test]
fn prohibition_factors_follow_the_kind_of_the_signal() {
    let data = small_context(Options::default());
    let view = data.get_context_view().unwrap();
    let index = SignalDisplayKind::Index;
    let name = SignalDisplayKind::Name;

    let none = get_prohibition_witness_polynomial(&fix(&[]), &view, index);
    assert_eq!((none.string.as_str(), none.num_vars), ("RingElem(R, 0)", 0));
    let none = get_prohibition_witness_polynomial(&fix(&[]), &view, name);
    assert_eq!((none.string.as_str(), none.num_vars), ("0", 0));

    let one = get_prohibition_witness_polynomial(&fix(&[(1, false)]), &view, index);
    assert_eq!((one.string.as_str(), one.num_vars), ("((x_1 - 3)*u_1 - 1)", 2));
    let one = get_prohibition_witness_polynomial(&fix(&[(1, false)]), &view, name);
    assert_eq!((one.string.as_str(), one.num_vars), ("((out - 3)*u_1 - 1)", 2));

    let bit = get_prohibition_witness_polynomial(&fix(&[(2, true)]), &view, index);
    assert_eq!((bit.string.as_str(), bit.num_vars), ("(x_2 - 0)", 1));
    let bit = get_prohibition_witness_polynomial(&fix(&[(3, true)]), &view, index);
    assert_eq!((bit.string.as_str(), bit.num_vars), ("(x_3 - 1)", 1));
    // A witness that is neither 0 nor 1 is subtracted from 1 all the same.
    let odd = get_prohibition_witness_polynomial(&fix(&[(1, true)]), &view, index);
    assert_eq!((odd.string.as_str(), odd.num_vars), ("(x_1 - -2)", 1));

    let all = get_prohibition_witness_polynomial(
        &fix(&[(3, true), (1, false), (2, true), (4, false)]),
        &view,
        index,
    );
    assert_eq!(
        all.string,
        "((x_1 - 3)*u_1 - 1) * (x_2 - 0) * (x_3 - 1) * ((x_4 - 16)*u_4 - 1)"
    );
    assert_eq!(all.num_vars, 6);
}

fn system(constraints: Vec<Constraint>, signals: &[usize]) -> PolynomialSystemFixedSignal {
    PolynomialSystemFixedSignal {
        constraints,
        signals_to_fix: signals.iter().copied().collect::<BTreeSet<_>>(),
        template_name: "T".to_string(),
        component_name: "main".to_string(),
    }
}

#[test]
fn optimisation_marks_boolean_signals_and_drops_empty_constraints() {
    let data = small_context(Options::default());
    let view = data.get_context_view().unwrap();
    let raw = system(
        vec![
            constraint(&[], &[], &[]),
            constraint(&[(3, "1")], &[(0, "16"), (3, "1")], &[]),
            constraint(&[], &[], &[(1, "1"), (3, "16")]),
            constraint(&[], &[], &[]),
            constraint(&[(0, "16"), (2, "1")], &[(2, "1")], &[]),
        ],
        &[1, 3],
    );
    let optimized = optimize_pol_system(&raw, &view);
    assert_eq!(optimized.constraints.len(), 3);
    assert_eq!(optimized.signals_to_fix, fix(&[(1, false), (3, true)]));
    assert_eq!(optimized.template_name, "T");
    assert_eq!(optimized.component_name, "main");
    let written: Vec<String> = optimized
        .constraints
        .iter()
        .map(|c| get_constraint_polynomial(c, &view, SignalDisplayKind::Index))
        .collect();
    assert_eq!(written, vec!["x_3 * (-1 + x_3)", "x_1 - x_3", "(-1 + x_2) * x_2"]);
}

#[test]
fn the_subscript_honours_the_options() {
    let options = Options::from_flags(9, 2, false, false);
    let data = small_context(options);
    let view = data.get_context_view().unwrap();
    let small = OptimizedPolynomialSystemFixedSignal {
        constraints: vec![constraint(&[], &[], &[(1, "1"), (3, "16")])],
        signals_to_fix: fix(&[(1, false)]),
        template_name: "T".to_string(),
        component_name: "main".to_string(),
    };
    assert_eq!(
        get_cocoa_subscript(&small, &view, 7),
        "use R ::= F[x_1, x_3, u_1];\n\nI := ideal(x_1 - x_3,\n((x_1 - 3)*u_1 - 1));\n\nTry\n    B := GBasisTimeout(I, 9);\n\n    If not(1 IsIn I) Then\n        println \"ERROR: 7\";\n        exit;\n    Else;\n        println \"OK: 7\";\n    EndIf;\nUponError E Do\n    println \"TIMEOUT: 7\";\nEndTry;\n"
    );
    let large = OptimizedPolynomialSystemFixedSignal {
        constraints: vec![constraint(&[], &[], &[(1, "1"), (3, "16")])],
        signals_to_fix: fix(&[(1, false), (3, true)]),
        template_name: "T".to_string(),
        component_name: "main".to_string(),
    };
    assert_eq!(get_cocoa_subscript(&large, &view, 12), "println \"TIMEOUT: 12\";\n");
    let empty = OptimizedPolynomialSystemFixedSignal {
        constraints: vec![],
        signals_to_fix: fix(&[]),
        template_name: "T".to_string(),
        component_name: "main".to_string(),
    };
    assert!(get_cocoa_subscript(&empty, &view, 0)
        .starts_with("use R ::= F[];\n\nI := ideal(RingElem(R, 0));\n\n"));
}

#[test]
fn systems_are_written_for_people() {
    let data = small_context(Options::default());
    let view = data.get_context_view().unwrap();
    let optimized = OptimizedPolynomialSystemFixedSignal {
        constraints: vec![
            constraint(&[(3, "1")], &[(0, "16"), (3, "1")], &[]),
            constraint(&[], &[], &[(1, "1"), (3, "16")]),
        ],
        signals_to_fix: fix(&[(1, false), (3, true)]),
        template_name: "Bits".to_string(),
        component_name: "main.bits".to_string(),
    };
    let readable = display_polynomial_system_readable(&optimized, &view);
    assert_eq!(readable.constraints, vec!["bit * (-1 + bit) = 0", "out - bit = 0"]);
    assert_eq!(readable.signals_to_fix, vec!["out", "bit"]);
    assert_eq!(readable.binary_signals, vec!["bit"]);
    assert_eq!(readable.prohibition_constraint, "((out - 3)*u_1 - 1) * (bit - 1) = 0");

    let systems = vec![optimized];
    assert_eq!(
        display_ith_pol_system_progress(&systems, 0),
        "Fixing polynomial system 1/1 (main.bits: Bits)"
    );
}

#[test]
fn failed_systems_are_listed_by_component() {
    let named = |component: &str, template: &str| PolynomialSystemFixedSignal {
        constraints: vec![],
        signals_to_fix: BTreeSet::new(),
        template_name: template.to_string(),
        component_name: component.to_string(),
    };
    let systems = vec![
        named("main.c", "C"),
        named("main.a", "A1"),
        named("main.b", "B"),
        named("main.a", "A2"),
        named("main.ab", "AB"),
    ];
    assert_eq!(
        display_unverified_modules(&systems, &vec![0, 1, 3, 4], "timeout"),
        "Failed to verify due to timeout 4 polynomial systems in 3 components: [main.a: A2, main.ab: AB, main.c: C]"
    );
    assert_eq!(
        display_unverified_modules(&systems, &vec![3, 1], "many solutions on Groebner basis"),
        "Failed to verify due to many solutions on Groebner basis 2 polynomial systems in 1 components: [main.a: A1]"
    );
    assert_eq!(
        display_unverified_modules(&systems, &vec![], "timeout"),
        "Failed to verify due to timeout 0 polynomial systems in 0 components: []"
    );
}

#[test]
fn a_system_is_written_only_with_a_value_for_each_signal_to_fix() {
    let mut data = small_context(Options::default());
    {
        let view = data.get_context_view().unwrap();
        assert!(check_signals_to_fix_covered(&view, &fix(&[(1, false), (3, true)])));
        assert!(check_signals_to_fix_covered(&view, &fix(&[])));
        assert!(!check_signals_to_fix_covered(&view, &fix(&[(1, false), (7, false)])));
    }
    data.witness.remove(&3);
    let view = data.get_context_view().unwrap();
    assert!(!check_signals_to_fix_covered(&view, &fix(&[(1, false), (3, true)])));
    assert!(check_signals_to_fix_covered(&view, &fix(&[(1, false)])));
}

#[test]
fn a_system_is_shown_by_name_only_when_each_signal_has_one() {
    let mut data = small_context(Options::default());
    let with_constant = system(
        vec![constraint(&[(3, "1")], &[(0, "16"), (3, "1")], &[(1, "1")])],
        &[1, 3],
    );
    let beyond_names = system(vec![constraint(&[], &[], &[(1, "1"), (9, "16")])], &[1]);
    let fixes_beyond_names = system(vec![constraint(&[], &[], &[(1, "1"), (2, "16")])], &[1, 9]);
    {
        let view = data.get_context_view().unwrap();
        assert!(check_system_named(&view, &optimize_pol_system(&with_constant, &view)));
        assert!(!check_system_named(&view, &optimize_pol_system(&beyond_names, &view)));
        assert!(!check_system_named(&view, &optimize_pol_system(&fixes_beyond_names, &view)));
    }
    data.signal_name_map.remove(&3);
    let view = data.get_context_view().unwrap();
    assert!(!check_system_named(&view, &optimize_pol_system(&with_constant, &view)));
}
