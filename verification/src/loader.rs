//! Reading the artifacts of a circuit.
//!
//! The constraints and the witness come as JSON, the names of the signals as
//! lines of comma-separated fields. Getting the text off the disk and
//! turning it into JSON values is left to others; what is done here is to
//! hold those values to the schema and to build the data from them.

use crate::algebra::{
    lemma_absent_coefficient, lemma_ordered_terms_equal, lemma_present_coefficient,
    lemma_term_inserted, signals_increasing, term_coefficient, term_contains, term_inserted,
    Constraint, ConstraintModel, ConstraintStorage, LinearTerm, SignalIndex, TermModel,
};
use crate::input_data::{SignalNameMap, Witness};
use crate::numbers::{
    decimal, decimal_nat, is_decimal_literal, lemma_decimal_nat_round_trip,
    lemma_decimal_round_trip, literal_value, usize_to_string, BigInteger,
};
use crate::text::{
    first_dot, index_of_text, parse_index, same_text, split, split_after_first_dot, split_fields,
    texts,
};
use std::collections::BTreeMap;
use vstd::prelude::*;
use vstd::string::*;

verus! {

/// A JSON value.
pub enum JsonValue {
    Null,
    Bool(bool),
    /// A number, as it was written.
    Number(String),
    Text(String),
    Array(Vec<JsonValue>),
    /// An object: its members in the order they are held in.
    Object(Vec<(String, JsonValue)>),
}

/// What can be wrong with the artifacts.
#[derive(Clone, Copy, PartialEq, Eq, Structural, Debug)]
pub enum SchemaError {
    ConstraintsMainNotObject,
    ConstraintsMissing,
    ConstraintsNotArray,
    ConstraintNotArray,
    ConstraintNotThreeTerms,
    TermNotObject,
    CoefficientNotString,
    WitnessNotObject,
    WitnessValueNotString,
    InvalidSignalIndex,
    InvalidNumber,
    SymbolLineFields,
    SymbolNameWithoutComponent,
}

impl SchemaError {
    /// What is wrong, in words.
    pub fn message(&self) -> (r: String)
        ensures
            r@ == error_text(*self),
    {
        match self {
            SchemaError::ConstraintsMainNotObject => String::from_str(
                "constraint.json main value is not an object",
            ),
            SchemaError::ConstraintsMissing => String::from_str(
                "constraint.json main object does not contain a constraints array",
            ),
            SchemaError::ConstraintsNotArray => String::from_str(
                "constraint.json 'constraints' value is not an array",
            ),
            SchemaError::ConstraintNotArray => String::from_str(
                "constraint.json contains a non-array in constraint list",
            ),
            SchemaError::ConstraintNotThreeTerms => String::from_str(
                "Constraint in constraint.json has more than 3 terms",
            ),
            SchemaError::TermNotObject => String::from_str(
                "Constraint in 'constraint.json' has a non-object",
            ),
            SchemaError::CoefficientNotString => String::from_str(
                "Coefficient in 'constraint.json' is not a string",
            ),
            SchemaError::WitnessNotObject => String::from_str(
                "witness.json main value is not an object",
            ),
            SchemaError::WitnessValueNotString => String::from_str(
                "witness.json has a witness value that is not a string",
            ),
            SchemaError::InvalidSignalIndex => String::from_str("Invalid signal index"),
            SchemaError::InvalidNumber => String::from_str("Invalid number"),
            SchemaError::SymbolLineFields => String::from_str(
                "Invalid number of entries per line in 'circuit_signals.sym'",
            ),
            SchemaError::SymbolNameWithoutComponent => String::from_str(
                "Signal name in 'circuit_signals.sym' does not begin with a component",
            ),
        }
    }
}

/// What is wrong, in words.
pub open spec fn error_text(error: SchemaError) -> Seq<char> {
    match error {
        SchemaError::ConstraintsMainNotObject => "constraint.json main value is not an object"@,
        SchemaError::ConstraintsMissing => "constraint.json main object does not contain a constraints array"@,
        SchemaError::ConstraintsNotArray => "constraint.json 'constraints' value is not an array"@,
        SchemaError::ConstraintNotArray => "constraint.json contains a non-array in constraint list"@,
        SchemaError::ConstraintNotThreeTerms => "Constraint in constraint.json has more than 3 terms"@,
        SchemaError::TermNotObject => "Constraint in 'constraint.json' has a non-object"@,
        SchemaError::CoefficientNotString => "Coefficient in 'constraint.json' is not a string"@,
        SchemaError::WitnessNotObject => "witness.json main value is not an object"@,
        SchemaError::WitnessValueNotString => "witness.json has a witness value that is not a string"@,
        SchemaError::InvalidSignalIndex => "Invalid signal index"@,
        SchemaError::InvalidNumber => "Invalid number"@,
        SchemaError::SymbolLineFields => "Invalid number of entries per line in 'circuit_signals.sym'"@,
        SchemaError::SymbolNameWithoutComponent => "Signal name in 'circuit_signals.sym' does not begin with a component"@,
    }
}

/// The signal and the number that a member of an object gives: the key is
/// the index of the signal in decimal digits, the value a text that holds
/// the number as a decimal literal. `not_text` is the error for a value
/// that is no text.
pub open spec fn member_meaning(member: (String, JsonValue), not_text: SchemaError) -> Result<
    (usize, int),
    SchemaError,
> {
    match member.1 {
        JsonValue::Text(number) => match index_of_text(member.0@) {
            Some(signal) => if is_decimal_literal(number@) {
                Ok((signal, literal_value(number@)))
            } else {
                Err(SchemaError::InvalidNumber)
            },
            None => Err(SchemaError::InvalidSignalIndex),
        },
        _ => Err(not_text),
    }
}

/// The linear term that the first `count` members of an object give, or
/// the first error among them. A later member for a signal replaces an
/// earlier one.
pub open spec fn term_meaning(members: Seq<(String, JsonValue)>, count: nat) -> Result<
    TermModel,
    SchemaError,
>
    decreases count,
{
    if count == 0 {
        Ok(Seq::empty())
    } else {
        match term_meaning(members, (count - 1) as nat) {
            Err(error) => Err(error),
            Ok(term) => match member_meaning(
                members[count - 1],
                SchemaError::CoefficientNotString,
            ) {
                Err(error) => Err(error),
                Ok((signal, value)) => Ok(term_inserted(term, signal, value)),
            },
        }
    }
}

/// The linear term that a JSON value gives.
pub open spec fn term_of_value(value: JsonValue) -> Result<TermModel, SchemaError> {
    match value {
        JsonValue::Object(members) => term_meaning(members@, members@.len()),
        _ => Err(SchemaError::TermNotObject),
    }
}

/// The constraint that a JSON value gives: an array of three terms.
pub open spec fn constraint_meaning(value: JsonValue) -> Result<ConstraintModel, SchemaError> {
    match value {
        JsonValue::Array(terms) => if terms@.len() != 3 {
            Err(SchemaError::ConstraintNotThreeTerms)
        } else {
            match term_of_value(terms@[0]) {
                Err(error) => Err(error),
                Ok(a) => match term_of_value(terms@[1]) {
                    Err(error) => Err(error),
                    Ok(b) => match term_of_value(terms@[2]) {
                        Err(error) => Err(error),
                        Ok(c) => Ok(ConstraintModel { a, b, c }),
                    },
                },
            }
        },
        _ => Err(SchemaError::ConstraintNotArray),
    }
}

/// The constraints that the first `count` values give, or the first error
/// among them.
pub open spec fn constraints_meaning(values: Seq<JsonValue>, count: nat) -> Result<
    Seq<ConstraintModel>,
    SchemaError,
>
    decreases count,
{
    if count == 0 {
        Ok(Seq::empty())
    } else {
        match constraints_meaning(values, (count - 1) as nat) {
            Err(error) => Err(error),
            Ok(constraints) => match constraint_meaning(values[count - 1]) {
                Err(error) => Err(error),
                Ok(constraint) => Ok(constraints.push(constraint)),
            },
        }
    }
}

/// The member at position `i` is the first with the key `key`.
pub open spec fn is_first_member(members: Seq<(String, JsonValue)>, key: Seq<char>, i: int) -> bool {
    &&& 0 <= i < members.len()
    &&& members[i].0@ == key
    &&& forall|j: int| 0 <= j < i ==> (#[trigger] members[j]).0@ != key
}

/// The constraints that the JSON value of the constraint file gives: an
/// object whose member `constraints` is an array of constraints.
pub open spec fn storage_meaning(data: JsonValue) -> Result<Seq<ConstraintModel>, SchemaError> {
    match data {
        JsonValue::Object(members) => if exists|i: int|
            is_first_member(members@, "constraints"@, i) {
            let i = choose|i: int| is_first_member(members@, "constraints"@, i);
            match members@[i].1 {
                JsonValue::Array(values) => constraints_meaning(values@, values@.len()),
                _ => Err(SchemaError::ConstraintsNotArray),
            }
        } else {
            Err(SchemaError::ConstraintsMissing)
        },
        _ => Err(SchemaError::ConstraintsMainNotObject),
    }
}

/// The witness that the first `count` members of an object give, or the
/// first error among them.
pub open spec fn witness_members_meaning(members: Seq<(String, JsonValue)>, count: nat) -> Result<
    Map<usize, int>,
    SchemaError,
>
    decreases count,
{
    if count == 0 {
        Ok(Map::empty())
    } else {
        match witness_members_meaning(members, (count - 1) as nat) {
            Err(error) => Err(error),
            Ok(witness) => match member_meaning(
                members[count - 1],
                SchemaError::WitnessValueNotString,
            ) {
                Err(error) => Err(error),
                Ok((signal, value)) => Ok(witness.insert(signal, value)),
            },
        }
    }
}

/// The witness that the JSON value of the witness file gives.
pub open spec fn witness_meaning(data: JsonValue) -> Result<Map<usize, int>, SchemaError> {
    match data {
        JsonValue::Object(members) => witness_members_meaning(members@, members@.len()),
        _ => Err(SchemaError::WitnessNotObject),
    }
}

/// The signal and the name that a line of the symbol file gives. The line
/// has four fields between commas. The first is the index of the signal;
/// the fourth is its name, from which the component that leads it is taken
/// off.
pub open spec fn symbol_meaning(line: Seq<char>) -> Result<(usize, Seq<char>), SchemaError> {
    let fields = split(line, ',');
    if fields.len() != 4 {
        Err(SchemaError::SymbolLineFields)
    } else if first_dot(fields[3]) >= fields[3].len() {
        Err(SchemaError::SymbolNameWithoutComponent)
    } else {
        match index_of_text(fields[0]) {
            Some(signal) => Ok((signal, fields[3].skip(first_dot(fields[3]) + 1))),
            None => Err(SchemaError::InvalidSignalIndex),
        }
    }
}

/// The names that the first `count` lines give, or the first error among
/// them. A later line for a signal replaces an earlier one.
pub open spec fn symbols_meaning(lines: Seq<Seq<char>>, count: nat) -> Result<
    Map<usize, Seq<char>>,
    SchemaError,
>
    decreases count,
{
    if count == 0 {
        Ok(Map::empty())
    } else {
        match symbols_meaning(lines, (count - 1) as nat) {
            Err(error) => Err(error),
            Ok(names) => match symbol_meaning(lines[count - 1]) {
                Err(error) => Err(error),
                Ok((signal, name)) => Ok(names.insert(signal, name)),
            },
        }
    }
}

/// Reads a member of an object as a signal with a number.
fn parse_member(member: &(String, JsonValue), not_text: SchemaError) -> (r: Result<
    (usize, BigInteger),
    SchemaError,
>)
    ensures
        r is Ok <==> member_meaning(*member, not_text) is Ok,
        r matches Ok(pair) ==> pair.1.wf() && Ok::<(usize, int), SchemaError>(
            (pair.0, pair.1.value()),
        ) == member_meaning(*member, not_text),
        r matches Err(error) ==> Err::<(usize, int), SchemaError>(error) == member_meaning(
            *member,
            not_text,
        ),
{
    match &member.1 {
        JsonValue::Text(number) => {
            let signal = match parse_index(member.0.as_str()) {
                Some(signal) => signal,
                None => { return Err(SchemaError::InvalidSignalIndex); },
            };
            match BigInteger::parse(number.as_str()) {
                Some(value) => Ok((signal, value)),
                None => Err(SchemaError::InvalidNumber),
            }
        },
        _ => Err(not_text),
    }
}

/// Reads a JSON value as a linear term.
#[verifier::loop_isolation(false)]
fn parse_term(value: &JsonValue) -> (r: Result<LinearTerm, SchemaError>)
    ensures
        r is Ok <==> term_of_value(*value) is Ok,
        r matches Ok(term) ==> term.wf() && Ok::<TermModel, SchemaError>(term.entries())
            == term_of_value(*value),
        r matches Err(error) ==> Err::<TermModel, SchemaError>(error) == term_of_value(*value),
{
    match value {
        JsonValue::Object(members) => {
            let mut term = LinearTerm::new();
            let mut i: usize = 0;
            while i < members.len()
                invariant
                    i <= members@.len(),
                    term.wf(),
                    term_meaning(members@, i as nat) == Ok::<TermModel, SchemaError>(term.entries()),
                decreases members@.len() - i,
            {
                match parse_member(&members[i], SchemaError::CoefficientNotString) {
                    Ok((signal, coefficient)) => {
                        term.insert(signal, coefficient);
                    },
                    Err(error) => {
                        proof {
                            lemma_term_error_stays(members@, (i + 1) as nat, members@.len());
                        }
                        return Err(error);
                    },
                }
                i = i + 1;
            }
            Ok(term)
        },
        _ => Err(SchemaError::TermNotObject),
    }
}

/// An error among the first members of an object is the error of the object.
pub proof fn lemma_term_error_stays(members: Seq<(String, JsonValue)>, count: nat, more: nat)
    requires
        count <= more,
        term_meaning(members, count) is Err,
    ensures
        term_meaning(members, more) == term_meaning(members, count),
    decreases more,
{
    if count < more {
        lemma_term_error_stays(members, count, (more - 1) as nat);
    }
}

/// An error among the first constraints is the error of the list.
pub proof fn lemma_constraints_error_stays(values: Seq<JsonValue>, count: nat, more: nat)
    requires
        count <= more,
        constraints_meaning(values, count) is Err,
    ensures
        constraints_meaning(values, more) == constraints_meaning(values, count),
    decreases more,
{
    if count < more {
        lemma_constraints_error_stays(values, count, (more - 1) as nat);
    }
}

/// An error among the first members of a witness is the error of the witness.
pub proof fn lemma_witness_error_stays(members: Seq<(String, JsonValue)>, count: nat, more: nat)
    requires
        count <= more,
        witness_members_meaning(members, count) is Err,
    ensures
        witness_members_meaning(members, more) == witness_members_meaning(members, count),
    decreases more,
{
    if count < more {
        lemma_witness_error_stays(members, count, (more - 1) as nat);
    }
}

/// An error among the first lines is the error of the file.
pub proof fn lemma_symbols_error_stays(lines: Seq<Seq<char>>, count: nat, more: nat)
    requires
        count <= more,
        symbols_meaning(lines, count) is Err,
    ensures
        symbols_meaning(lines, more) == symbols_meaning(lines, count),
    decreases more,
{
    if count < more {
        lemma_symbols_error_stays(lines, count, (more - 1) as nat);
    }
}

/// Reads a JSON value as a constraint.
fn parse_constraint(value: &JsonValue) -> (r: Result<Constraint, SchemaError>)
    ensures
        r is Ok <==> constraint_meaning(*value) is Ok,
        r matches Ok(constraint) ==> constraint.wf() && Ok::<ConstraintModel, SchemaError>(
            constraint@,
        ) == constraint_meaning(*value),
        r matches Err(error) ==> Err::<ConstraintModel, SchemaError>(error) == constraint_meaning(
            *value,
        ),
{
    match value {
        JsonValue::Array(terms) => {
            if terms.len() != 3 {
                return Err(SchemaError::ConstraintNotThreeTerms);
            }
            let a = match parse_term(&terms[0]) {
                Ok(term) => term,
                Err(error) => { return Err(error); },
            };
            let b = match parse_term(&terms[1]) {
                Ok(term) => term,
                Err(error) => { return Err(error); },
            };
            let c = match parse_term(&terms[2]) {
                Ok(term) => term,
                Err(error) => { return Err(error); },
            };
            Ok(Constraint::new(a, b, c))
        },
        _ => Err(SchemaError::ConstraintNotArray),
    }
}

/// The constraints of a circuit, from the JSON value of its constraint file.
#[verifier::loop_isolation(false)]
pub fn parse_constraint_list(data: &JsonValue) -> (r: Result<ConstraintStorage, SchemaError>)
    ensures
        r is Ok <==> storage_meaning(*data) is Ok,
        r matches Ok(storage) ==> storage.wf() && Ok::<Seq<ConstraintModel>, SchemaError>(
            storage@,
        ) == storage_meaning(*data),
        r matches Err(error) ==> Err::<Seq<ConstraintModel>, SchemaError>(error)
            == storage_meaning(*data),
{
    let members = match data {
        JsonValue::Object(members) => members,
        _ => { return Err(SchemaError::ConstraintsMainNotObject); },
    };
    let mut k: usize = 0;
    while k < members.len() && !same_text(members[k].0.as_str(), "constraints")
        invariant
            k <= members@.len(),
            forall|j: int| 0 <= j < k ==> (#[trigger] members@[j]).0@ != "constraints"@,
        decreases members@.len() - k,
    {
        k = k + 1;
    }
    if k >= members.len() {
        assert(forall|i: int| !is_first_member(members@, "constraints"@, i));
        return Err(SchemaError::ConstraintsMissing);
    }
    proof {
        assert(is_first_member(members@, "constraints"@, k as int));
        let i = choose|i: int| is_first_member(members@, "constraints"@, i);
        if i < k {
            assert(members@[i].0@ != "constraints"@);
        }
        if k < i {
            assert(members@[k as int].0@ != "constraints"@);
        }
        assert(i == k);
    }
    let values = match &members[k].1 {
        JsonValue::Array(values) => values,
        _ => { return Err(SchemaError::ConstraintsNotArray); },
    };
    let mut storage = ConstraintStorage::new();
    assert(storage@ =~= Seq::empty());
    let mut i: usize = 0;
    while i < values.len()
        invariant
            i <= values@.len(),
            storage.wf(),
            constraints_meaning(values@, i as nat) == Ok::<Seq<ConstraintModel>, SchemaError>(
                storage@,
            ),
        decreases values@.len() - i,
    {
        match parse_constraint(&values[i]) {
            Ok(constraint) => {
                storage.add_constraint(constraint);
            },
            Err(error) => {
                proof {
                    lemma_constraints_error_stays(values@, (i + 1) as nat, values@.len());
                }
                return Err(error);
            },
        }
        i = i + 1;
    }
    Ok(storage)
}

/// The witness as mathematics sees it.
pub open spec fn witness_values(witness: Map<usize, BigInteger>) -> Map<usize, int> {
    witness.map_values(|n: BigInteger| n.value())
}

/// The witness of a circuit, from the JSON value of its witness file.
#[verifier::loop_isolation(false)]
pub fn parse_witness(data: &JsonValue) -> (r: Result<Witness, SchemaError>)
    ensures
        r is Ok <==> witness_meaning(*data) is Ok,
        r matches Ok(witness) ==> Ok::<Map<usize, int>, SchemaError>(witness_values(witness@))
            == witness_meaning(*data) && forall|s: usize|
            witness@.contains_key(s) ==> (#[trigger] witness@[s]).wf(),
        r matches Err(error) ==> Err::<Map<usize, int>, SchemaError>(error) == witness_meaning(
            *data,
        ),
{
    let members = match data {
        JsonValue::Object(members) => members,
        _ => { return Err(SchemaError::WitnessNotObject); },
    };
    let mut witness: Witness = BTreeMap::new();
    assert(witness_values(witness@) =~= Map::empty());
    let mut i: usize = 0;
    while i < members.len()
        invariant
            i <= members@.len(),
            forall|s: usize| witness@.contains_key(s) ==> (#[trigger] witness@[s]).wf(),
            witness_members_meaning(members@, i as nat) == Ok::<Map<usize, int>, SchemaError>(
                witness_values(witness@),
            ),
        decreases members@.len() - i,
    {
        match parse_member(&members[i], SchemaError::WitnessValueNotString) {
            Ok((signal, value)) => {
                let ghost before = witness_values(witness@);
                witness.insert(signal, value);
                assert(witness_values(witness@) =~= before.insert(signal, value.value()));
            },
            Err(error) => {
                proof {
                    lemma_witness_error_stays(members@, (i + 1) as nat, members@.len());
                }
                return Err(error);
            },
        }
        i = i + 1;
    }
    Ok(witness)
}

/// Reads a line of the symbol file.
pub fn parse_signal_name_line(line: &str) -> (r: Result<(SignalIndex, String), SchemaError>)
    ensures
        r is Ok <==> symbol_meaning(line@) is Ok,
        r matches Ok(pair) ==> Ok::<(usize, Seq<char>), SchemaError>((pair.0, pair.1@))
            == symbol_meaning(line@),
        r matches Err(error) ==> Err::<(usize, Seq<char>), SchemaError>(error) == symbol_meaning(
            line@,
        ),
{
    let fields = split_fields(line, ',');
    if fields.len() != 4 {
        return Err(SchemaError::SymbolLineFields);
    }
    assert(texts(fields@)[0] == fields@[0]@);
    assert(texts(fields@)[3] == fields@[3]@);
    let name = match split_after_first_dot(fields[3].as_str()) {
        Some(name) => name,
        None => { return Err(SchemaError::SymbolNameWithoutComponent); },
    };
    match parse_index(fields[0].as_str()) {
        Some(signal) => Ok((signal, name)),
        None => Err(SchemaError::InvalidSignalIndex),
    }
}

/// The names as mathematics sees them.
pub open spec fn name_texts(names: Map<usize, String>) -> Map<usize, Seq<char>> {
    names.map_values(|name: String| name@)
}

/// The names of the signals, from the lines of the symbol file.
#[verifier::loop_isolation(false)]
pub fn parse_signal_name_map(lines: &Vec<String>) -> (r: Result<SignalNameMap, SchemaError>)
    ensures
        r is Ok <==> symbols_meaning(texts(lines@), lines@.len()) is Ok,
        r matches Ok(names) ==> Ok::<Map<usize, Seq<char>>, SchemaError>(name_texts(names@))
            == symbols_meaning(texts(lines@), lines@.len()),
        r matches Err(error) ==> Err::<Map<usize, Seq<char>>, SchemaError>(error)
            == symbols_meaning(texts(lines@), lines@.len()),
{
    let mut names: SignalNameMap = BTreeMap::new();
    assert(name_texts(names@) =~= Map::empty());
    let ghost all = texts(lines@);
    let mut i: usize = 0;
    while i < lines.len()
        invariant
            i <= lines@.len(),
            all == texts(lines@),
            symbols_meaning(all, i as nat) == Ok::<Map<usize, Seq<char>>, SchemaError>(
                name_texts(names@),
            ),
        decreases lines@.len() - i,
    {
        assert(all[i as int] == lines@[i as int]@);
        match parse_signal_name_line(lines[i].as_str()) {
            Ok((signal, name)) => {
                let ghost before = name_texts(names@);
                names.insert(signal, name);
                assert(name_texts(names@) =~= before.insert(signal, name@));
            },
            Err(error) => {
                proof {
                    lemma_symbols_error_stays(all, (i + 1) as nat, lines@.len());
                }
                return Err(error);
            },
        }
        i = i + 1;
    }
    Ok(names)
}

/// What the first members of an object give does not depend on the
/// members that follow.
pub proof fn lemma_term_meaning_prefix(
    members: Seq<(String, JsonValue)>,
    more: Seq<(String, JsonValue)>,
    count: nat,
)
    requires
        count <= members.len(),
        members.len() <= more.len(),
        forall|i: int| 0 <= i < members.len() ==> members[i] == more[i],
    ensures
        term_meaning(more, count) == term_meaning(members, count),
    decreases count,
{
    if count > 0 {
        lemma_term_meaning_prefix(members, more, (count - 1) as nat);
    }
}

/// The member that writes a summand: the signal in decimal digits as key,
/// the coefficient as a decimal text as value.
pub open spec fn is_written_summand(member: (String, JsonValue), summand: (usize, int)) -> bool {
    &&& member.0@ == decimal_nat(summand.0 as nat)
    &&& member.1 matches JsonValue::Text(number)
    &&& number@ == decimal(summand.1)
}

/// A summand that was written is read back as it was.
pub proof fn lemma_written_summand_read_back(
    member: (String, JsonValue),
    summand: (usize, int),
    not_text: SchemaError,
)
    requires
        is_written_summand(member, summand),
    ensures
        member_meaning(member, not_text) == Ok::<(usize, int), SchemaError>(summand),
{
    lemma_decimal_nat_round_trip(summand.0 as nat);
    lemma_decimal_round_trip(summand.1);
}

/// Some member writes the summand at place `k`, where `places` says which
/// summand each member writes.
pub open spec fn is_written(places: Seq<int>, k: int) -> bool {
    exists|i: int| 0 <= i < places.len() && #[trigger] places[i] == k
}

/// The first `count` members, each of which writes a summand of `term`,
/// are read as a term in order that holds the summands written so far.
proof fn lemma_written_members_read(
    term: TermModel,
    members: Seq<(String, JsonValue)>,
    places: Seq<int>,
    count: nat,
)
    requires
        signals_increasing(term),
        places.len() == members.len(),
        count <= members.len(),
        forall|i: int|
            0 <= i < members.len() ==> 0 <= #[trigger] places[i] < term.len() && is_written_summand(
                members[i],
                term[places[i]],
            ),
    ensures
        term_meaning(members, count) matches Ok(read) && signals_increasing(read) && (forall|
            t: usize,
        |
            term_contains(read, t) <==> exists|i: int|
                0 <= i < count && term[#[trigger] places[i]].0 == t) && (forall|t: usize|
            term_contains(read, t) ==> term_coefficient(read, t) == term_coefficient(term, t)),
    decreases count,
{
    if count > 0 {
        let before = (count - 1) as nat;
        lemma_written_members_read(term, members, places, before);
        let read = term_meaning(members, before)->Ok_0;
        let place = places[count - 1];
        let summand = term[place];
        lemma_written_summand_read_back(
            members[count - 1],
            summand,
            SchemaError::CoefficientNotString,
        );
        lemma_term_inserted(read, summand.0, summand.1);
        lemma_present_coefficient(term, place);
        let next = term_inserted(read, summand.0, summand.1);
        assert(term_meaning(members, count) == Ok::<TermModel, SchemaError>(next));
        assert forall|t: usize|
            term_contains(next, t) <==> exists|i: int|
                0 <= i < count && term[#[trigger] places[i]].0 == t by {
            if term_contains(next, t) {
                if t == summand.0 {
                    assert(term[places[count - 1]].0 == t);
                } else {
                    assert(term_contains(read, t));
                    let i = choose|i: int| 0 <= i < before && term[#[trigger] places[i]].0 == t;
                    assert(0 <= i < count && term[places[i]].0 == t);
                }
            }
            if exists|i: int| 0 <= i < count && term[#[trigger] places[i]].0 == t {
                let i = choose|i: int| 0 <= i < count && term[#[trigger] places[i]].0 == t;
                if i < before {
                    assert(term_contains(read, t));
                }
            }
        }
    } else {
        let read = term_meaning(members, 0)->Ok_0;
        assert(read.len() == 0);
    }
}

/// The summands of a term, written as members in any order, are read back
/// as the term. `places` says which summand each member writes; every
/// summand is written.
pub proof fn lemma_term_read_back_in_any_order(
    term: TermModel,
    members: Seq<(String, JsonValue)>,
    places: Seq<int>,
)
    requires
        signals_increasing(term),
        places.len() == members.len(),
        forall|i: int|
            0 <= i < members.len() ==> 0 <= #[trigger] places[i] < term.len() && is_written_summand(
                members[i],
                term[places[i]],
            ),
        forall|k: int| 0 <= k < term.len() ==> #[trigger] is_written(places, k),
    ensures
        term_meaning(members, members.len()) == Ok::<TermModel, SchemaError>(term),
{
    lemma_written_members_read(term, members, places, members.len());
    let read = term_meaning(members, members.len())->Ok_0;
    assert forall|t: usize| term_contains(read, t) == term_contains(term, t) by {
        if term_contains(read, t) {
            let i = choose|i: int| 0 <= i < members.len() && term[#[trigger] places[i]].0 == t;
            assert(term[places[i]].0 == t);
        }
        if term_contains(term, t) {
            let k = choose|k: int| 0 <= k < term.len() && (#[trigger] term[k]).0 == t;
            assert(is_written(places, k));
            let i = choose|i: int| 0 <= i < places.len() && #[trigger] places[i] == k;
            assert(term[places[i]].0 == t);
        }
    }
    assert forall|t: usize| term_coefficient(read, t) == term_coefficient(term, t) by {
        if !term_contains(read, t) {
            lemma_absent_coefficient(read, t);
            lemma_absent_coefficient(term, t);
        }
    }
    lemma_ordered_terms_equal(read, term);
}

/// A constraint whose three terms are written as objects, each with its
/// summands as members in any order, is read back as the constraint.
pub proof fn lemma_constraint_read_back_in_any_order(
    c: ConstraintModel,
    value: JsonValue,
    places_a: Seq<int>,
    places_b: Seq<int>,
    places_c: Seq<int>,
)
    requires
        signals_increasing(c.a),
        signals_increasing(c.b),
        signals_increasing(c.c),
        value matches JsonValue::Array(terms) && terms@.len() == 3 && writes_term(
            terms@[0],
            c.a,
            places_a,
        ) && writes_term(terms@[1], c.b, places_b) && writes_term(terms@[2], c.c, places_c),
    ensures
        constraint_meaning(value) == Ok::<ConstraintModel, SchemaError>(c),
{
    let terms = value->Array_0;
    lemma_term_read_back_in_any_order(c.a, terms@[0]->Object_0@, places_a);
    lemma_term_read_back_in_any_order(c.b, terms@[1]->Object_0@, places_b);
    lemma_term_read_back_in_any_order(c.c, terms@[2]->Object_0@, places_c);
}

/// The JSON value is an object that writes the summands of `term` in some
/// order: each member writes the summand at its place, and every summand
/// is written.
pub open spec fn writes_term(value: JsonValue, term: TermModel, places: Seq<int>) -> bool {
    &&& value matches JsonValue::Object(members)
    &&& places.len() == members@.len()
    &&& forall|i: int|
        0 <= i < members@.len() ==> 0 <= #[trigger] places[i] < term.len() && is_written_summand(
            members@[i],
            term[places[i]],
        )
    &&& forall|k: int| 0 <= k < term.len() ==> #[trigger] is_written(places, k)
}

/// The JSON value that writes a linear term: an object with a member for
/// each summand, in order. Read back, it gives the term.
pub fn term_to_json(term: &LinearTerm) -> (r: JsonValue)
    requires
        term.wf(),
    ensures
        r matches JsonValue::Object(members) && members@.len() == term.entries().len()
            && forall|i: int|
            0 <= i < members@.len() ==> is_written_summand(
                #[trigger] members@[i],
                term.entries()[i],
            ),
        term_of_value(r) == Ok::<crate::algebra::TermModel, SchemaError>(term.entries()),
{
    let ghost entries = term.entries();
    let mut members: Vec<(String, JsonValue)> = Vec::new();
    let mut i: usize = 0;
    assert(entries.take(0) =~= Seq::empty());
    while i < term.len()
        invariant
            i <= entries.len(),
            entries == term.entries(),
            term.wf(),
            members@.len() == i,
            forall|k: int| 0 <= k < i ==> is_written_summand(#[trigger] members@[k], entries[k]),
            term_meaning(members@, i as nat) == Ok::<crate::algebra::TermModel, SchemaError>(
                entries.take(i as int),
            ),
        decreases entries.len() - i,
    {
        let signal = term.signal_at(i);
        let coefficient = term.coefficient_at(i);
        let ghost before = members@;
        members.push((usize_to_string(signal), JsonValue::Text(coefficient.to_string())));
        proof {
            let member = members@[i as int];
            assert(is_written_summand(member, entries[i as int]));
            lemma_written_summand_read_back(
                member,
                entries[i as int],
                SchemaError::CoefficientNotString,
            );
            lemma_term_meaning_prefix(before, members@, i as nat);
            let upto = entries.take(i as int);
            if i > 0 {
                assert(upto.last() == entries[i - 1]);
                assert(entries[i - 1].0 < entries[i as int].0);
            }
            assert(term_inserted(upto, signal, coefficient.value()) =~= entries.take(i + 1));
        }
        i = i + 1;
    }
    assert(entries.take(i as int) =~= entries);
    JsonValue::Object(members)
}

/// The JSON value that writes a constraint as the constraint file holds
/// it: an array of its three terms. Read back, it gives the constraint.
pub fn constraint_to_json(constraint: &Constraint) -> (r: JsonValue)
    requires
        constraint.wf(),
    ensures
        constraint_meaning(r) == Ok::<ConstraintModel, SchemaError>(constraint@),
{
    let mut terms: Vec<JsonValue> = Vec::new();
    terms.push(term_to_json(constraint.a()));
    terms.push(term_to_json(constraint.b()));
    terms.push(term_to_json(constraint.c()));
    JsonValue::Array(terms)
}

} // verus!
