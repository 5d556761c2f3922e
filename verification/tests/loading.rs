use circuit_verification::algebra::{Constraint, LinearTerm};
use circuit_verification::cli::Options;
use circuit_verification::input_data::{
    print_constraint, print_constraint_storage, print_signal_name_map, print_witness,
    InputDataContext, TreeConstraints,
};
use circuit_verification::loader::{
    constraint_to_json, parse_constraint_list, parse_signal_name_line, parse_signal_name_map,
    parse_witness, term_to_json, JsonValue, SchemaError,
};
use circuit_verification::numbers::BigInteger;
use std::collections::BTreeMap;

fn text(s: &str) -> JsonValue {
    JsonValue::Text(s.to_string())
}

fn object(members: &[(&str, JsonValue)]) -> JsonValue {
    JsonValue::Object(members.iter().map(|(k, v)| (k.to_string(), copy(v))).collect())
}

fn copy(value: &JsonValue) -> JsonValue {
    match value {
        JsonValue::Null => JsonValue::Null,
        JsonValue::Bool(b) => JsonValue::Bool(*b),
        JsonValue::Number(n) => JsonValue::Number(n.clone()),
        JsonValue::Text(t) => JsonValue::Text(t.clone()),
        JsonValue::Array(items) => JsonValue::Array(items.iter().map(copy).collect()),
        JsonValue::Object(members) => {
            JsonValue::Object(members.iter().map(|(k, v)| (k.clone(), copy(v))).collect())
        }
    }
}

fn file(constraints: Vec<JsonValue>) -> JsonValue {
    object(&[("constraints", JsonValue::Array(constraints))])
}

fn entries(term: &LinearTerm) -> Vec<(usize, String)> {
    (0..term.len()).map(|i| (term.signal_at(i), term.coefficient_at(i).to_string())).collect()
}

#[test]
fn constraints_are_read_from_their_file() {
    let data = file(vec![
        JsonValue::Array(vec![
            object(&[("2", text("1"))]),
            object(&[("10", text("7")), ("0", text("16")), ("2", text("1"))]),
            object(&[]),
        ]),
        JsonValue::Array(vec![object(&[]), object(&[]), object(&[("1", text("-3"))])]),
    ]);
    let storage = parse_constraint_list(&data).unwrap();
    assert_eq!(storage.len(), 2);
    let first = storage.read_constraint(0).unwrap();
    assert_eq!(entries(first.a()), vec![(2, "1".to_string())]);
    assert_eq!(
        entries(first.b()),
        vec![(0, "16".to_string()), (2, "1".to_string()), (10, "7".to_string())]
    );
    assert!(first.c().is_empty());
    assert!(!first.is_linear());
    assert!(first.has_constant_coefficient());
    assert_eq!(first.take_cloned_signals_ordered().into_iter().collect::<Vec<_>>(), vec![2, 10]);
    let second = storage.read_constraint(1).unwrap();
    assert!(second.is_linear());
    assert!(!second.is_empty());
    assert!(!second.has_constant_coefficient());
    assert_eq!(entries(second.c()), vec![(1, "-3".to_string())]);
    assert!(storage.read_constraint(2).is_none());
}

#[test]
fn a_later_member_for_a_signal_replaces_an_earlier_one() {
    let data = file(vec![JsonValue::Array(vec![
        object(&[("3", text("1")), ("1", text("2")), ("03", text("5"))]),
        object(&[]),
        object(&[]),
    ])]);
    let storage = parse_constraint_list(&data).unwrap();
    assert_eq!(
        entries(storage.read_constraint(0).unwrap().a()),
        vec![(1, "2".to_string()), (3, "5".to_string())]
    );
}

fn constraint_error(data: JsonValue) -> SchemaError {
    match parse_constraint_list(&data) {
        Err(error) => error,
        Ok(_) => panic!("the file breaks the schema"),
    }
}

#[test]
fn each_deviation_from_the_schema_of_the_constraints_has_its_error() {
    let empty = || object(&[]);
    assert_eq!(constraint_error(JsonValue::Array(vec![])), SchemaError::ConstraintsMainNotObject);
    assert_eq!(constraint_error(object(&[("other", JsonValue::Null)])), SchemaError::ConstraintsMissing);
    assert_eq!(
        constraint_error(object(&[("constraints", text("none"))])),
        SchemaError::ConstraintsNotArray
    );
    assert_eq!(constraint_error(file(vec![JsonValue::Bool(true)])), SchemaError::ConstraintNotArray);
    assert_eq!(
        constraint_error(file(vec![JsonValue::Array(vec![empty(), empty()])])),
        SchemaError::ConstraintNotThreeTerms
    );
    assert_eq!(
        constraint_error(file(vec![JsonValue::Array(vec![empty(), empty(), empty(), empty()])])),
        SchemaError::ConstraintNotThreeTerms
    );
    assert_eq!(
        constraint_error(file(vec![JsonValue::Array(vec![empty(), JsonValue::Null, empty()])])),
        SchemaError::TermNotObject
    );
    assert_eq!(
        constraint_error(file(vec![JsonValue::Array(vec![
            empty(),
            empty(),
            object(&[("1", JsonValue::Number("5".to_string()))])
        ])])),
        SchemaError::CoefficientNotString
    );
    assert_eq!(
        constraint_error(file(vec![JsonValue::Array(vec![
            object(&[("x", text("5"))]),
            empty(),
            empty()
        ])])),
        SchemaError::InvalidSignalIndex
    );
    assert_eq!(
        constraint_error(file(vec![JsonValue::Array(vec![
            object(&[("1", text("five"))]),
            empty(),
            empty()
        ])])),
        SchemaError::InvalidNumber
    );
    // The first deviation is the one reported.
    assert_eq!(
        constraint_error(file(vec![
            JsonValue::Array(vec![empty(), empty(), object(&[("1", text("1")), ("y", text("z"))])]),
            JsonValue::Null,
        ])),
        SchemaError::InvalidSignalIndex
    );
    assert_eq!(
        SchemaError::ConstraintNotThreeTerms.message(),
        "Constraint in constraint.json has more than 3 terms"
    );
    assert_eq!(
        SchemaError::WitnessValueNotString.message(),
        "witness.json has a witness value that is not a string"
    );
}

#[test]
fn the_witness_is_read_from_its_file() {
    let witness = parse_witness(&object(&[
        ("0", text("1")),
        ("2", text("21888242871839275222246405745257275088548364400416034343698204186575808495616")),
        ("1", text("0")),
    ]))
    .unwrap();
    let read: Vec<(usize, String)> = witness.iter().map(|(s, v)| (*s, v.to_string())).collect();
    assert_eq!(
        read,
        vec![
            (0, "1".to_string()),
            (1, "0".to_string()),
            (
                2,
                "21888242871839275222246405745257275088548364400416034343698204186575808495616"
                    .to_string()
            )
        ]
    );
    assert_eq!(parse_witness(&JsonValue::Null).err(), Some(SchemaError::WitnessNotObject));
    assert_eq!(
        parse_witness(&object(&[("1", JsonValue::Bool(false))])).err(),
        Some(SchemaError::WitnessValueNotString)
    );
    assert_eq!(
        parse_witness(&object(&[("-1", text("1"))])).err(),
        Some(SchemaError::InvalidSignalIndex)
    );
    assert_eq!(
        parse_witness(&object(&[("1", text("1.5"))])).err(),
        Some(SchemaError::InvalidNumber)
    );
}

#[test]
fn symbol_lines_give_the_name_without_the_main_component() {
    assert_eq!(parse_signal_name_line("1,1,0,main.out"), Ok((1, "out".to_string())));
    assert_eq!(parse_signal_name_line("12,-1,3,main.sub.in[2]"), Ok((12, "sub.in[2]".to_string())));
    assert_eq!(parse_signal_name_line("3,,,main."), Ok((3, "".to_string())));
    assert_eq!(parse_signal_name_line("3,0,0,.x"), Ok((3, "x".to_string())));
    assert_eq!(parse_signal_name_line(""), Err(SchemaError::SymbolLineFields));
    assert_eq!(parse_signal_name_line("1,2,main.out"), Err(SchemaError::SymbolLineFields));
    assert_eq!(parse_signal_name_line("1,2,3,main.out,"), Err(SchemaError::SymbolLineFields));
    assert_eq!(parse_signal_name_line("1,2,3,out"), Err(SchemaError::SymbolNameWithoutComponent));
    assert_eq!(parse_signal_name_line("x,2,3,main.out"), Err(SchemaError::InvalidSignalIndex));
    assert_eq!(parse_signal_name_line(",2,3,main.out"), Err(SchemaError::InvalidSignalIndex));

    let lines = vec![
        "1,1,0,main.out".to_string(),
        "2,2,0,main.in".to_string(),
        "1,1,0,main.result".to_string(),
    ];
    assert_eq!(
        parse_signal_name_map(&lines).unwrap(),
        [(1, "result".to_string()), (2, "in".to_string())].into_iter().collect::<BTreeMap<_, _>>()
    );
    let broken = vec!["1,1,0,main.out".to_string(), "2,2,0".to_string(), "x".to_string()];
    assert_eq!(parse_signal_name_map(&broken).err(), Some(SchemaError::SymbolLineFields));
    assert!(parse_signal_name_map(&vec![]).unwrap().is_empty());
}

fn number(text: &str) -> BigInteger {
    BigInteger::parse(text).unwrap()
}

#[test]
fn a_constraint_written_and_read_back_is_the_same() {
    let mut b = LinearTerm::new();
    b.insert(7, number("3"));
    b.insert(0, number("16"));
    b.insert(2, number("-4"));
    b.insert(7, number("5"));
    assert!(b.contains_key(0) && b.contains_key(2) && b.contains_key(7) && !b.contains_key(3));
    assert_eq!(b.get(7).unwrap().to_string(), "5");
    assert!(b.get(1).is_none());
    let a = LinearTerm::from_sorted(vec![(1, number("1"))]).unwrap();
    let constraint = Constraint::new(a, b, LinearTerm::new());

    match term_to_json(constraint.b()) {
        JsonValue::Object(members) => {
            let written: Vec<(String, String)> = members
                .into_iter()
                .map(|(k, v)| match v {
                    JsonValue::Text(t) => (k, t),
                    _ => panic!("coefficients are written as text"),
                })
                .collect();
            assert_eq!(
                written,
                vec![
                    ("0".to_string(), "16".to_string()),
                    ("2".to_string(), "-4".to_string()),
                    ("7".to_string(), "5".to_string())
                ]
            );
        }
        _ => panic!("a term is written as an object"),
    }

    let storage = parse_constraint_list(&file(vec![constraint_to_json(&constraint)])).unwrap();
    let read = storage.read_constraint(0).unwrap();
    assert_eq!(entries(read.a()), entries(constraint.a()));
    assert_eq!(entries(read.b()), entries(constraint.b()));
    assert_eq!(entries(read.c()), entries(constraint.c()));
}

#[test]
fn terms_hold_their_summands_in_order() {
    assert!(LinearTerm::from_sorted(vec![(2, number("1")), (1, number("1"))]).is_none());
    assert!(LinearTerm::from_sorted(vec![(1, number("1")), (1, number("2"))]).is_none());
    let term = LinearTerm::from_sorted(vec![(1, number("1")), (5, number("2"))]).unwrap();
    assert_eq!(term.len(), 2);
    assert!(!term.is_empty());
    assert_eq!(entries(&term.clone()), entries(&term));
    assert_eq!(Constraint::constant_coefficient(), 0);
}

#[test]
fn options_follow_the_flags() {
    let defaults = Options::default();
    assert_eq!(defaults.groebner_cocoa_timeout_seconds, 5);
    assert_eq!(defaults.max_vars_prohibition_polynomial_before_timeout, 75);
    assert!(!defaults.generate_svg_diagrams);
    assert!(!defaults.generate_only_last_propagation_svg);

    let plain = Options::from_flags(5, 75, false, false);
    assert!(!plain.generate_svg_diagrams);
    assert!(plain.generate_only_last_propagation_svg);
    let svg = Options::from_flags(5, 75, true, false);
    assert!(svg.generate_svg_diagrams);
    assert!(svg.generate_only_last_propagation_svg);
    // Drawing every step of the propagation implies drawing at all.
    let every_step = Options::from_flags(30, 10, false, true);
    assert!(every_step.generate_svg_diagrams);
    assert!(!every_step.generate_only_last_propagation_svg);
    assert_eq!(every_step.groebner_cocoa_timeout_seconds, 30);
    assert_eq!(every_step.max_vars_prohibition_polynomial_before_timeout, 10);
}

#[test]
fn the_context_needs_the_prime_in_decimal() {
    let tree = |field: &str| TreeConstraints { field: field.to_string(), ..TreeConstraints::default() };
    let data = |field: &str| InputDataContext {
        witness: BTreeMap::new(),
        signal_name_map: BTreeMap::new(),
        tree_constraints: tree(field),
        base_path: "here".to_string(),
        options: Options::default(),
    };
    assert!(data("").get_context_view().is_none());
    assert!(data("0x11").get_context_view().is_none());
    let seventeen = data("17");
    let view = seventeen.get_context_view().unwrap();
    assert_eq!(view.field.to_string(), "17");
    assert_eq!(view.base_path, "here");

    let mut frame = tree("17");
    assert!(frame.check_frame(0));
    frame.number_signals = 3;
    frame.number_inputs = 2;
    frame.number_outputs = 2;
    assert!(!frame.check_frame(0));
    frame.number_outputs = 1;
    assert!(frame.check_frame(0));
    frame.no_constraints = 2;
    assert!(!frame.check_frame(1));
    assert!(frame.check_frame(2));
    frame.are_double_arrow = vec![(7, 1)];
    assert!(frame.check_frame(2));
    frame.initial_signal = usize::MAX - 2;
    assert!(!frame.check_frame(3));
    frame.initial_signal = usize::MAX - 3;
    assert!(frame.check_frame(3));
    let mut child = tree("17");
    child.initial_signal = usize::MAX;
    child.number_inputs = 1;
    frame.subcomponents = vec![child];
    assert!(!frame.check_frame(3));
}

#[test]
fn data_is_shown_line_by_line() {
    let a = LinearTerm::from_sorted(vec![(1, number("1"))]).unwrap();
    let b = LinearTerm::from_sorted(vec![(0, number("16")), (12, number("-3"))]).unwrap();
    let constraint = Constraint::new(a, b, LinearTerm::new());
    assert_eq!(
        print_constraint(&constraint),
        vec![
            "Linear Expression A:",
            "     Signal: 1",
            "     Value : 1",
            "Linear Expression B:",
            "     Signal: 0",
            "     Value : 16",
            "     Signal: 12",
            "     Value : -3",
            "Linear Expression C: ",
        ]
    );
    let storage = parse_constraint_list(&file(vec![
        constraint_to_json(&constraint),
        JsonValue::Array(vec![object(&[]), object(&[]), object(&[("2", text("5"))])]),
    ]))
    .unwrap();
    let shown = print_constraint_storage(&storage);
    assert_eq!(shown.len(), 10 + 6);
    assert_eq!(shown[0], "\nConstraint ID: 0");
    assert_eq!(shown[1], "Linear Expression A:");
    assert_eq!(shown[10], "\nConstraint ID: 1");
    assert_eq!(&shown[11..], &[
        "Linear Expression A:",
        "Linear Expression B:",
        "Linear Expression C: ",
        "     Signal: 2",
        "     Value : 5",
    ]);

    let witness = parse_witness(&object(&[("10", text("7")), ("2", text("-1"))])).unwrap();
    assert_eq!(print_witness(&witness), vec!["Id: 2, val: -1", "Id: 10, val: 7"]);
    let names = parse_signal_name_map(&vec!["3,3,0,main.c".to_string(), "1,1,0,main.a".to_string()])
        .unwrap();
    assert_eq!(print_signal_name_map(&names), vec!["Id: 1, name: 'a'", "Id: 3, name: 'c'"]);
}

#[test]
fn a_tree_is_in_order_when_its_components_nest_and_tile() {
    let node = |first_signal: usize, signals: usize, first_constraint: usize, constraints: usize| {
        TreeConstraints {
            field: "17".to_string(),
            no_constraints: constraints,
            initial_constraint: first_constraint,
            number_outputs: 1,
            number_inputs: 1,
            number_signals: signals,
            initial_signal: first_signal,
            ..TreeConstraints::default()
        }
    };
    let mut root = node(1, 10, 0, 2);
    assert!(root.check_tree());
    root.subcomponents = vec![node(3, 4, 2, 3), node(7, 4, 5, 1)];
    assert!(root.check_tree());
    // A component below with a signal outside of the component above.
    root.subcomponents[1] = node(8, 4, 5, 1);
    assert!(!root.check_tree());
    root.subcomponents[1] = node(0, 2, 5, 1);
    assert!(!root.check_tree());
    // Two components below that share a signal.
    root.subcomponents[1] = node(6, 4, 5, 1);
    assert!(!root.check_tree());
    // Two components that share a constraint.
    root.subcomponents[1] = node(7, 4, 4, 1);
    assert!(!root.check_tree());
    root.subcomponents[1] = node(7, 4, 1, 1);
    assert!(!root.check_tree());
    // A fault further down.
    root.subcomponents[1] = node(7, 4, 5, 1);
    root.subcomponents[1].subcomponents = vec![node(7, 1, 6, 0)];
    assert!(!root.check_tree());
    root.subcomponents[1].subcomponents = vec![node(8, 2, 6, 0)];
    assert!(root.check_tree());
}

#[test]
fn summands_written_in_any_order_are_read_back_as_the_same_constraint() {
    let b = LinearTerm::from_sorted(vec![(0, number("16")), (2, number("-4")), (7, number("5"))])
        .unwrap();
    let a = LinearTerm::from_sorted(vec![(1, number("1")), (3, number("2"))]).unwrap();
    let constraint = Constraint::new(a, b, LinearTerm::new());
    let in_order = parse_constraint_list(&file(vec![constraint_to_json(&constraint)])).unwrap();

    let shuffled = file(vec![JsonValue::Array(vec![
        object(&[("3", text("2")), ("1", text("1"))]),
        object(&[("7", text("5")), ("0", text("16")), ("2", text("-4")), ("7", text("5"))]),
        object(&[]),
    ])]);
    let read = parse_constraint_list(&shuffled).unwrap();
    for storage in [&in_order, &read] {
        let c = storage.read_constraint(0).unwrap();
        assert_eq!(entries(c.a()), entries(constraint.a()));
        assert_eq!(entries(c.b()), entries(constraint.b()));
        assert_eq!(entries(c.c()), entries(constraint.c()));
    }
}
