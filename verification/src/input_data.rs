//! What a run is given: the component tree, the witness and the names of
//! the signals.

use crate::algebra::{
    ComponentIndex, Constraint, ConstraintIndex, ConstraintModel, ConstraintStorage, LinearTerm,
    SignalIndex, TermModel,
};
use crate::cli::Options;
use crate::numbers::{
    decimal, decimal_nat, is_decimal_literal, literal_value, usize_to_string, BigInteger,
};
use crate::signal_set::{lemma_sorted_keys, map_keys, sorted_keys};
use crate::text::texts;
use std::collections::BTreeMap;
use vstd::prelude::*;
use vstd::string::*;

verus! {

/// The value of each signal in the witness at hand.
pub type Witness = BTreeMap<SignalIndex, BigInteger>;

/// The name of each signal, relative to the main component.
pub type SignalNameMap = BTreeMap<SignalIndex, String>;

/// A component of the circuit with the components below it.
///
/// Its signals are `number_signals` consecutive indices from
/// `initial_signal`: first the outputs, then the inputs, then the
/// intermediates. Its constraints are `no_constraints` consecutive indices
/// from `initial_constraint`.
pub struct TreeConstraints {
    /// The prime of the field, in decimal.
    pub field: String,
    pub no_constraints: usize,
    pub initial_constraint: ConstraintIndex,
    pub node_id: ComponentIndex,
    pub template_name: String,
    pub component_name: String,
    pub number_inputs: usize,
    pub number_outputs: usize,
    pub number_signals: usize,
    pub initial_signal: SignalIndex,
    /// The safe assignments: a constraint and the signal it assigns.
    pub are_double_arrow: Vec<(ConstraintIndex, SignalIndex)>,
    pub subcomponents: Vec<TreeConstraints>,
}

impl Default for TreeConstraints {
    fn default() -> (r: Self)
        ensures
            r.field@.len() == 0,
            r.template_name@.len() == 0,
            r.component_name@.len() == 0,
            r.no_constraints == 0,
            r.initial_constraint == 0,
            r.node_id == 0,
            r.number_inputs == 0,
            r.number_outputs == 0,
            r.number_signals == 0,
            r.initial_signal == 0,
            r.are_double_arrow@.len() == 0,
            r.subcomponents@.len() == 0,
    {
        TreeConstraints {
            field: String::new(),
            no_constraints: 0,
            initial_constraint: 0,
            node_id: 0,
            template_name: String::new(),
            component_name: String::new(),
            number_inputs: 0,
            number_outputs: 0,
            number_signals: 0,
            initial_signal: 0,
            are_double_arrow: Vec::new(),
            subcomponents: Vec::new(),
        }
    }
}

impl TreeConstraints {
    /// The first output signal; the outputs are `number_outputs` from here.
    pub open spec fn first_output(&self) -> int {
        self.initial_signal as int
    }

    /// The first input signal; the inputs are `number_inputs` from here.
    pub open spec fn first_input(&self) -> int {
        self.initial_signal + self.number_outputs
    }

    /// The first intermediate signal; the intermediates reach up to `end_signal`.
    pub open spec fn first_intermediate(&self) -> int {
        self.initial_signal + self.number_outputs + self.number_inputs
    }

    /// One past the last signal.
    pub open spec fn end_signal(&self) -> int {
        self.initial_signal + self.number_signals
    }

    /// `signal` is an output of the component.
    pub open spec fn is_output(&self, signal: usize) -> bool {
        self.first_output() <= signal < self.first_input()
    }

    /// `signal` is an input of the component.
    pub open spec fn is_input(&self, signal: usize) -> bool {
        self.first_input() <= signal < self.first_intermediate()
    }

    /// `signal` is an intermediate of the component.
    pub open spec fn is_intermediate(&self, signal: usize) -> bool {
        self.first_intermediate() <= signal < self.end_signal()
    }

    /// The ports of the component are indices that a machine integer holds.
    pub open spec fn ports_in_bounds(&self) -> bool {
        self.initial_signal + self.number_outputs + self.number_inputs <= usize::MAX
    }

    /// The signals of the component are indices that a machine integer
    /// holds, and its outputs and inputs are among them.
    pub open spec fn signals_in_bounds(&self) -> bool {
        &&& self.number_outputs + self.number_inputs <= self.number_signals
        &&& self.initial_signal + self.number_signals <= usize::MAX
    }

    /// The component can be analysed against `constraints` constraints: its
    /// signals and those of the components directly below it are in bounds,
    /// and each of its constraints exists.
    pub open spec fn frame_wf(&self, constraints: nat) -> bool {
        &&& self.signals_in_bounds()
        &&& self.initial_constraint + self.no_constraints <= constraints
        &&& forall|i: int|
            0 <= i < self.subcomponents@.len() ==> (#[trigger] self.subcomponents@[i]).ports_in_bounds()
    }

    /// Whether the component can be analysed against `constraints` constraints.
    pub fn check_frame(&self, constraints: usize) -> (r: bool)
        ensures
            r == self.frame_wf(constraints as nat),
    {
        let sum = match self.number_outputs.checked_add(self.number_inputs) {
            Some(sum) => sum,
            None => { return false; },
        };
        if sum > self.number_signals {
            return false;
        }
        if self.initial_signal.checked_add(self.number_signals).is_none() {
            return false;
        }
        match self.initial_constraint.checked_add(self.no_constraints) {
            Some(end) => {
                if end > constraints {
                    return false;
                }
            },
            None => { return false; },
        }
        let mut k: usize = 0;
        while k < self.subcomponents.len()
            invariant
                k <= self.subcomponents@.len(),
                forall|j: int|
                    0 <= j < k ==> (#[trigger] self.subcomponents@[j]).ports_in_bounds(),
            decreases self.subcomponents@.len() - k,
        {
            let child = &self.subcomponents[k];
            let ok = match child.initial_signal.checked_add(child.number_outputs) {
                Some(s) => s.checked_add(child.number_inputs).is_some(),
                None => false,
            };
            if !ok {
                assert(!self.subcomponents@[k as int].ports_in_bounds());
                return false;
            }
            k = k + 1;
        }
        true
    }
}

/// The two ranges, each given by its first index and its length, have no
/// index in common.
pub open spec fn ranges_disjoint(first: int, first_len: int, second: int, second_len: int) -> bool {
    first + first_len <= second || second + second_len <= first
}

impl TreeConstraints {
    /// The signals of each component directly below are signals of this
    /// component, and no two of those components share a signal.
    pub open spec fn signals_nested(&self) -> bool {
        &&& forall|i: int|
            0 <= i < self.subcomponents@.len() ==> self.initial_signal <= (
            #[trigger] self.subcomponents@[i]).initial_signal && self.subcomponents@[i].end_signal()
                <= self.end_signal()
        &&& forall|i: int, j: int|
            0 <= i < j < self.subcomponents@.len() ==> ranges_disjoint(
                (#[trigger] self.subcomponents@[i]).initial_signal as int,
                self.subcomponents@[i].number_signals as int,
                (#[trigger] self.subcomponents@[j]).initial_signal as int,
                self.subcomponents@[j].number_signals as int,
            )
    }

    /// No constraint belongs to two of the component and the components
    /// directly below it.
    pub open spec fn constraints_tiled(&self) -> bool {
        &&& forall|i: int|
            0 <= i < self.subcomponents@.len() ==> ranges_disjoint(
                self.initial_constraint as int,
                self.no_constraints as int,
                (#[trigger] self.subcomponents@[i]).initial_constraint as int,
                self.subcomponents@[i].no_constraints as int,
            )
        &&& forall|i: int, j: int|
            0 <= i < j < self.subcomponents@.len() ==> ranges_disjoint(
                (#[trigger] self.subcomponents@[i]).initial_constraint as int,
                self.subcomponents@[i].no_constraints as int,
                (#[trigger] self.subcomponents@[j]).initial_constraint as int,
                self.subcomponents@[j].no_constraints as int,
            )
    }

    /// The whole tree is in order: at every component the signals are in
    /// bounds with the outputs and inputs among them, the constraints are
    /// in bounds, the signals of the components below are nested and apart,
    /// and the constraints are tiled.
    pub open spec fn tree_wf(&self) -> bool
        decreases self,
    {
        &&& self.signals_in_bounds()
        &&& self.initial_constraint + self.no_constraints <= usize::MAX
        &&& self.signals_nested()
        &&& self.constraints_tiled()
        &&& forall|i: int|
            0 <= i < self.subcomponents@.len() ==> (#[trigger] self.subcomponents@[i]).tree_wf()
    }

    /// Whether the component itself is in order as far as its own numbers go.
    fn check_bounds(&self) -> (r: bool)
        ensures
            r == (self.signals_in_bounds() && self.initial_constraint + self.no_constraints
                <= usize::MAX),
    {
        let sum = match self.number_outputs.checked_add(self.number_inputs) {
            Some(sum) => sum,
            None => { return false; },
        };
        sum <= self.number_signals && self.initial_signal.checked_add(self.number_signals).is_some()
            && self.initial_constraint.checked_add(self.no_constraints).is_some()
    }

    /// Whether the whole tree is in order.
    pub fn check_tree(&self) -> (r: bool)
        ensures
            r == self.tree_wf(),
        decreases self,
    {
        if !self.check_bounds() {
            return false;
        }
        let n = self.subcomponents.len();
        let mut i: usize = 0;
        while i < n
            invariant
                i <= n,
                n == self.subcomponents@.len(),
                self.signals_in_bounds(),
                self.initial_constraint + self.no_constraints <= usize::MAX,
                forall|k: int| 0 <= k < i ==> (#[trigger] self.subcomponents@[k]).tree_wf(),
                forall|k: int|
                    0 <= k < i ==> self.initial_signal <= (#[trigger] self.subcomponents@[k]).initial_signal
                        && self.subcomponents@[k].end_signal() <= self.end_signal(),
                forall|k: int|
                    0 <= k < i ==> ranges_disjoint(
                        self.initial_constraint as int,
                        self.no_constraints as int,
                        (#[trigger] self.subcomponents@[k]).initial_constraint as int,
                        self.subcomponents@[k].no_constraints as int,
                    ),
                forall|a: int, b: int|
                    0 <= a < b < i ==> ranges_disjoint(
                        (#[trigger] self.subcomponents@[a]).initial_signal as int,
                        self.subcomponents@[a].number_signals as int,
                        (#[trigger] self.subcomponents@[b]).initial_signal as int,
                        self.subcomponents@[b].number_signals as int,
                    ),
                forall|a: int, b: int|
                    0 <= a < b < i ==> ranges_disjoint(
                        (#[trigger] self.subcomponents@[a]).initial_constraint as int,
                        self.subcomponents@[a].no_constraints as int,
                        (#[trigger] self.subcomponents@[b]).initial_constraint as int,
                        self.subcomponents@[b].no_constraints as int,
                    ),
            decreases n - i,
        {
            let child = &self.subcomponents[i];
            if !child.check_tree() {
                return false;
            }
            if child.initial_signal < self.initial_signal || child.initial_signal
                + child.number_signals > self.initial_signal + self.number_signals {
                return false;
            }
            if !apart(
                self.initial_constraint,
                self.no_constraints,
                child.initial_constraint,
                child.no_constraints,
            ) {
                return false;
            }
            let mut k: usize = 0;
            while k < i
                invariant
                    k <= i,
                    i < n,
                    n == self.subcomponents@.len(),
                    child == &self.subcomponents@[i as int],
                    child.tree_wf(),
                    forall|m: int| 0 <= m < i ==> (#[trigger] self.subcomponents@[m]).tree_wf(),
                    forall|a: int|
                        0 <= a < k ==> ranges_disjoint(
                            (#[trigger] self.subcomponents@[a]).initial_signal as int,
                            self.subcomponents@[a].number_signals as int,
                            child.initial_signal as int,
                            child.number_signals as int,
                        ) && ranges_disjoint(
                            self.subcomponents@[a].initial_constraint as int,
                            self.subcomponents@[a].no_constraints as int,
                            child.initial_constraint as int,
                            child.no_constraints as int,
                        ),
                decreases i - k,
            {
                let other = &self.subcomponents[k];
                assert(other.tree_wf());
                if !apart(
                    other.initial_signal,
                    other.number_signals,
                    child.initial_signal,
                    child.number_signals,
                ) || !apart(
                    other.initial_constraint,
                    other.no_constraints,
                    child.initial_constraint,
                    child.no_constraints,
                ) {
                    return false;
                }
                k = k + 1;
            }
            i = i + 1;
        }
        true
    }
}

/// Whether two ranges of indices have no index in common.
fn apart(first: usize, first_len: usize, second: usize, second_len: usize) -> (r: bool)
    requires
        first + first_len <= usize::MAX,
        second + second_len <= usize::MAX,
    ensures
        r == ranges_disjoint(first as int, first_len as int, second as int, second_len as int),
{
    first + first_len <= second || second + second_len <= first
}

/// Everything a run has read.
pub struct InputDataContext {
    pub witness: Witness,
    pub signal_name_map: SignalNameMap,
    pub tree_constraints: TreeConstraints,
    pub base_path: String,
    pub options: Options,
}

/// The data of a run as seen from one component of the tree.
pub struct InputDataContextView<'a> {
    pub witness: &'a Witness,
    pub signal_name_map: &'a SignalNameMap,
    pub tree_constraints: &'a TreeConstraints,
    /// The prime of the field.
    pub field: BigInteger,
    pub base_path: &'a String,
    pub options: &'a Options,
}

impl InputDataContext {
    /// The view from the main component. `None` when the tree does not give
    /// the prime of the field as a decimal number.
    pub fn get_context_view(&self) -> (r: Option<InputDataContextView<'_>>)
        ensures
            r is Some <==> is_decimal_literal(self.tree_constraints.field@),
            r matches Some(view) ==> {
                &&& view.field.wf()
                &&& view.field.value() == literal_value(self.tree_constraints.field@)
                &&& view.witness == &self.witness
                &&& view.signal_name_map == &self.signal_name_map
                &&& view.tree_constraints == &self.tree_constraints
                &&& view.base_path == &self.base_path
                &&& view.options == &self.options
            },
    {
        match BigInteger::parse(self.tree_constraints.field.as_str()) {
            Some(field) => Some(
                InputDataContextView {
                    witness: &self.witness,
                    signal_name_map: &self.signal_name_map,
                    tree_constraints: &self.tree_constraints,
                    field,
                    base_path: &self.base_path,
                    options: &self.options,
                },
            ),
            None => None,
        }
    }
}

impl<'a> InputDataContextView<'a> {
    /// The prime of the field and every value of the witness are held in
    /// canonical form.
    pub open spec fn numbers_wf(&self) -> bool {
        &&& self.field.wf()
        &&& forall|s: usize| self.witness@.contains_key(s) ==> (#[trigger] self.witness@[s]).wf()
    }

    /// The view from the component with index `idx` among those directly
    /// below this one.
    pub fn get_subcomponent_context_view(&self, idx: ComponentIndex) -> (r: InputDataContextView<
        '_,
    >)
        requires
            idx < self.tree_constraints.subcomponents@.len(),
        ensures
            r.tree_constraints == &self.tree_constraints.subcomponents@[idx as int],
            r.witness == self.witness,
            r.signal_name_map == self.signal_name_map,
            r.field == self.field,
            r.base_path == self.base_path,
            r.options == self.options,
    {
        InputDataContextView {
            witness: self.witness,
            signal_name_map: self.signal_name_map,
            tree_constraints: &self.tree_constraints.subcomponents[idx],
            field: self.field.clone(),
            base_path: self.base_path,
            options: self.options,
        }
    }

    /// Whether `signal` is an input of the component.
    pub fn is_signal_public(&self, signal: SignalIndex) -> (r: bool)
        requires
            self.tree_constraints.ports_in_bounds(),
        ensures
            r == self.tree_constraints.is_input(signal),
    {
        let initial_signal = self.tree_constraints.initial_signal;
        let number_inputs = self.tree_constraints.number_inputs;
        let number_outputs = self.tree_constraints.number_outputs;

        signal >= initial_signal + number_outputs && signal < initial_signal + number_outputs
            + number_inputs
    }
}

/// The lines that show the first `count` summands of a term: for each its
/// signal and its coefficient.
pub open spec fn term_lines(term: TermModel, count: nat) -> Seq<Seq<char>>
    decreases count,
{
    if count == 0 {
        Seq::empty()
    } else {
        term_lines(term, (count - 1) as nat).push(
            "     Signal: "@ + decimal_nat(term[count - 1].0 as nat),
        ).push("     Value : "@ + decimal(term[count - 1].1))
    }
}

/// The lines that show a constraint: its three terms, each under a heading.
pub open spec fn constraint_lines(c: ConstraintModel) -> Seq<Seq<char>> {
    seq!["Linear Expression A:"@] + term_lines(c.a, c.a.len()) + seq!["Linear Expression B:"@]
        + term_lines(c.b, c.b.len()) + seq!["Linear Expression C: "@] + term_lines(
        c.c,
        c.c.len(),
    )
}

/// Appends the lines that show a term.
fn push_term_lines(lines: &mut Vec<String>, term: &LinearTerm)
    requires
        term.wf(),
    ensures
        texts(final(lines)@) == texts(old(lines)@) + term_lines(
            term.entries(),
            term.entries().len(),
        ),
{
    let ghost before = texts(lines@);
    let ghost entries = term.entries();
    let mut i: usize = 0;
    assert(texts(lines@) =~= before + term_lines(entries, 0));
    while i < term.len()
        invariant
            i <= entries.len(),
            entries == term.entries(),
            term.wf(),
            texts(lines@) == before + term_lines(entries, i as nat),
        decreases entries.len() - i,
    {
        let mut signal = String::from_str("     Signal: ");
        signal.append(usize_to_string(term.signal_at(i)).as_str());
        let mut value = String::from_str("     Value : ");
        value.append(term.coefficient_at(i).to_string().as_str());
        let ghost so_far = texts(lines@);
        lines.push(signal);
        lines.push(value);
        assert(texts(lines@) =~= so_far.push(signal@).push(value@));
        assert(texts(lines@) =~= before + term_lines(entries, (i + 1) as nat));
        i = i + 1;
    }
}

/// The lines that show a constraint.
pub fn print_constraint(c: &Constraint) -> (r: Vec<String>)
    requires
        c.wf(),
    ensures
        texts(r@) == constraint_lines(c@),
{
    let mut lines: Vec<String> = Vec::new();
    lines.push(String::from_str("Linear Expression A:"));
    assert(texts(lines@) =~= seq!["Linear Expression A:"@]);
    push_term_lines(&mut lines, c.a());
    let ghost first = texts(lines@);
    lines.push(String::from_str("Linear Expression B:"));
    assert(texts(lines@) =~= first + seq!["Linear Expression B:"@]);
    push_term_lines(&mut lines, c.b());
    let ghost second = texts(lines@);
    lines.push(String::from_str("Linear Expression C: "));
    assert(texts(lines@) =~= second + seq!["Linear Expression C: "@]);
    push_term_lines(&mut lines, c.c());
    lines
}

/// The lines that show the first `count` constraints of a storage, each
/// under its index.
pub open spec fn storage_lines(storage: Seq<ConstraintModel>, count: nat) -> Seq<Seq<char>>
    decreases count,
{
    if count == 0 {
        Seq::empty()
    } else {
        storage_lines(storage, (count - 1) as nat).push(
            "\nConstraint ID: "@ + decimal_nat((count - 1) as nat),
        ) + constraint_lines(storage[count - 1])
    }
}

/// The lines that show the constraints of a storage.
pub fn print_constraint_storage(storage: &ConstraintStorage) -> (r: Vec<String>)
    requires
        storage.wf(),
    ensures
        texts(r@) == storage_lines(storage@, storage@.len()),
{
    let mut lines: Vec<String> = Vec::new();
    assert(texts(lines@) =~= storage_lines(storage@, 0));
    let n = storage.len();
    let mut id: usize = 0;
    while id < n
        invariant
            id <= n,
            n == storage@.len(),
            storage.wf(),
            texts(lines@) == storage_lines(storage@, id as nat),
        decreases n - id,
    {
        let mut heading = String::from_str("\nConstraint ID: ");
        heading.append(usize_to_string(id).as_str());
        let ghost so_far = texts(lines@);
        lines.push(heading);
        assert(texts(lines@) =~= so_far.push(heading@));
        let mut shown = print_constraint(storage.read_constraint(id).unwrap());
        let ghost added = texts(shown@);
        let ghost with_heading = texts(lines@);
        lines.append(&mut shown);
        assert(texts(lines@) =~= with_heading + added);
        id = id + 1;
    }
    lines
}

/// The lines that show the values of the given signals in a witness.
pub open spec fn witness_lines(witness: Map<usize, BigInteger>, signals: Seq<usize>) -> Seq<Seq<char>> {
    Seq::new(
        signals.len(),
        |i: int|
            "Id: "@ + decimal_nat(signals[i] as nat) + ", val: "@ + decimal(
                witness[signals[i]].value(),
            ),
    )
}

/// The lines that show a witness, in ascending order of signal.
pub fn print_witness(witness: &Witness) -> (r: Vec<String>)
    requires
        forall|s: usize| witness@.contains_key(s) ==> (#[trigger] witness@[s]).wf(),
    ensures
        texts(r@) == witness_lines(witness@, sorted_keys(witness@.dom())),
{
    let signals = map_keys(witness);
    proof {
        lemma_sorted_keys(signals@);
    }
    let ghost wanted = witness_lines(witness@, signals@);
    let mut lines: Vec<String> = Vec::new();
    let mut i: usize = 0;
    while i < signals.len()
        invariant
            i <= signals@.len(),
            signals@.to_set() == witness@.dom(),
            forall|s: usize| witness@.contains_key(s) ==> (#[trigger] witness@[s]).wf(),
            wanted == witness_lines(witness@, signals@),
            texts(lines@) == wanted.take(i as int),
        decreases signals@.len() - i,
    {
        let signal = signals[i];
        proof {
            assert(signals@.contains(signal));
            assert(signals@.to_set().contains(signal));
        }
        let value = witness.get(&signal).unwrap();
        let mut line = String::from_str("Id: ");
        line.append(usize_to_string(signal).as_str());
        line.append(", val: ");
        line.append(value.to_string().as_str());
        let ghost so_far = texts(lines@);
        lines.push(line);
        proof {
            assert(texts(lines@) =~= so_far.push(wanted[i as int]));
            assert(wanted.take(i + 1) =~= wanted.take(i as int).push(wanted[i as int]));
        }
        i = i + 1;
    }
    assert(wanted.take(i as int) =~= wanted);
    lines
}

/// The lines that show the names of the given signals.
pub open spec fn name_lines(names: Map<usize, String>, signals: Seq<usize>) -> Seq<Seq<char>> {
    Seq::new(
        signals.len(),
        |i: int|
            "Id: "@ + decimal_nat(signals[i] as nat) + ", name: '"@ + names[signals[i]]@ + "'"@,
    )
}

/// The lines that show the names of the signals, in ascending order of signal.
pub fn print_signal_name_map(map: &SignalNameMap) -> (r: Vec<String>)
    ensures
        texts(r@) == name_lines(map@, sorted_keys(map@.dom())),
{
    let signals = map_keys(map);
    proof {
        lemma_sorted_keys(signals@);
    }
    let ghost wanted = name_lines(map@, signals@);
    let mut lines: Vec<String> = Vec::new();
    let mut i: usize = 0;
    while i < signals.len()
        invariant
            i <= signals@.len(),
            signals@.to_set() == map@.dom(),
            wanted == name_lines(map@, signals@),
            texts(lines@) == wanted.take(i as int),
        decreases signals@.len() - i,
    {
        let signal = signals[i];
        proof {
            assert(signals@.contains(signal));
            assert(signals@.to_set().contains(signal));
        }
        let name = map.get(&signal).unwrap();
        let mut line = String::from_str("Id: ");
        line.append(usize_to_string(signal).as_str());
        line.append(", name: '");
        line.append(name.as_str());
        line.append("'");
        let ghost so_far = texts(lines@);
        lines.push(line);
        proof {
            assert(texts(lines@) =~= so_far.push(wanted[i as int]));
            assert(wanted.take(i + 1) =~= wanted.take(i as int).push(wanted[i as int]));
        }
        i = i + 1;
    }
    assert(wanted.take(i as int) =~= wanted);
    lines
}

} // verus!
