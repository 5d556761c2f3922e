//! The verification graph of one component.
//!
//! Its nodes are the signals of the component and the ports of the
//! components directly below it. A safe assignment is an edge from the
//! signals on its right-hand side to the signal it assigns; every other
//! constraint is a hyper-edge over the signals that occur in it. Edges are
//! never removed, so that their indices stay valid: an edge that has done its
//! work is marked inactive.

use crate::algebra::{
    term_coefficient, ComponentIndex, Constraint, ConstraintIndex, ConstraintModel,
    ConstraintStorage, LinearTerm, SignalIndex, TermModel,
};
use crate::input_data::{InputDataContextView, TreeConstraints};
use crate::propagation::{after_firing, fires, linearises};
use crate::signal_set::{difference_to_vec, is_subset, set_to_vec, strictly_increasing};
use std::collections::{BTreeMap, BTreeSet};
use vstd::prelude::*;

verus! {

/// The kind of a node.
#[derive(Clone, Copy, PartialEq, Eq, Structural, Debug)]
pub enum Node {
    InputSignal,
    OutputSignal,
    IntermediateSignal,
    SubComponentInputSignal(ComponentIndex),
    SubComponentOutputSignal(ComponentIndex),
}

/// A constraint that safely defines one signal by the others that occur in it.
pub struct SafeAssignment {
    /// The signal that is assigned.
    pub lhs_signal: SignalIndex,
    /// The other signals of the constraint.
    pub rhs_signals: BTreeSet<SignalIndex>,
    pub associated_constraint: ConstraintIndex,
    /// Whether the assignment has yet to fire.
    pub active: bool,
}

/// A constraint that is no safe assignment.
pub struct UnsafeConstraint {
    /// All the signals of the constraint.
    pub signals: BTreeSet<SignalIndex>,
    pub associated_constraint: ConstraintIndex,
    /// Whether the constraint still has to be accounted for.
    pub active: bool,
}

/// A component directly below, seen as a black box.
pub struct SubComponent {
    pub input_signals: BTreeSet<SignalIndex>,
    pub output_signals: BTreeSet<SignalIndex>,
    pub not_yet_fixed_inputs: BTreeSet<SignalIndex>,
}

/// A signal with the linear expression that takes its place.
pub struct Substitution {
    pub from: SignalIndex,
    pub to: LinearTerm,
}

/// The position of a safe assignment in the list of the graph.
pub type SafeAssignmentIndex = usize;

/// The position of an unsafe constraint in the list of the graph.
pub type UnsafeConstraintIndex = usize;

/// The edges and nodes that a diagram is to set off.
pub struct PolynomialSystemHighlight {
    pub nodes: BTreeSet<SignalIndex>,
    pub safe_assignments: BTreeSet<SafeAssignmentIndex>,
    pub unsafe_constraints: BTreeSet<UnsafeConstraintIndex>,
}

/// The verification graph of a component.
pub struct VerificationGraph {
    /// The kind of each node.
    pub nodes: BTreeMap<SignalIndex, Node>,
    /// For a signal, the safe assignment that assigns it.
    pub incoming_safe_assignments: BTreeMap<SignalIndex, SafeAssignmentIndex>,
    /// For a signal, the safe assignments with it on their right-hand side.
    pub outgoing_safe_assignments: BTreeMap<SignalIndex, BTreeSet<SafeAssignmentIndex>>,
    /// For a signal, the unsafe constraints it occurs in.
    pub edge_constraints: BTreeMap<SignalIndex, BTreeSet<UnsafeConstraintIndex>>,
    /// The components directly below, by their position.
    pub subcomponents: BTreeMap<ComponentIndex, SubComponent>,
    pub safe_assignments: Vec<SafeAssignment>,
    pub unsafe_constraints: Vec<UnsafeConstraint>,
    /// The substitutions found so far, oldest first.
    pub substitutions: Vec<Substitution>,
    /// The signals known to be determined by the inputs.
    pub fixed_nodes: BTreeSet<SignalIndex>,
    pub debug_polynomial_system_generator_data: PolynomialSystemHighlight,
}

/// A safe assignment as mathematics sees it.
#[verifier::ext_equal]
pub struct SafeAssignmentModel {
    pub lhs_signal: usize,
    pub rhs_signals: Set<usize>,
    pub associated_constraint: usize,
    pub active: bool,
}

/// An unsafe constraint as mathematics sees it.
#[verifier::ext_equal]
pub struct UnsafeConstraintModel {
    pub signals: Set<usize>,
    pub associated_constraint: usize,
    pub active: bool,
}

/// A component below as mathematics sees it.
#[verifier::ext_equal]
pub struct SubComponentModel {
    pub input_signals: Set<usize>,
    pub output_signals: Set<usize>,
    pub not_yet_fixed_inputs: Set<usize>,
}

/// A substitution as mathematics sees it.
#[verifier::ext_equal]
pub struct SubstitutionModel {
    pub from: usize,
    pub to: TermModel,
}

/// What a diagram is to set off, as mathematics sees it.
#[verifier::ext_equal]
pub struct HighlightModel {
    pub nodes: Set<usize>,
    pub safe_assignments: Set<usize>,
    pub unsafe_constraints: Set<usize>,
}

/// The graph as mathematics sees it.
#[verifier::ext_equal]
pub struct GraphModel {
    pub nodes: Map<usize, Node>,
    pub incoming_safe_assignments: Map<usize, usize>,
    pub outgoing_safe_assignments: Map<usize, Set<usize>>,
    pub edge_constraints: Map<usize, Set<usize>>,
    pub subcomponents: Map<usize, SubComponentModel>,
    pub safe_assignments: Seq<SafeAssignmentModel>,
    pub unsafe_constraints: Seq<UnsafeConstraintModel>,
    pub substitutions: Seq<SubstitutionModel>,
    pub fixed_nodes: Set<usize>,
    pub highlight: HighlightModel,
}

impl View for SafeAssignment {
    type V = SafeAssignmentModel;

    open spec fn view(&self) -> SafeAssignmentModel {
        SafeAssignmentModel {
            lhs_signal: self.lhs_signal,
            rhs_signals: self.rhs_signals@,
            associated_constraint: self.associated_constraint,
            active: self.active,
        }
    }
}

impl View for UnsafeConstraint {
    type V = UnsafeConstraintModel;

    open spec fn view(&self) -> UnsafeConstraintModel {
        UnsafeConstraintModel {
            signals: self.signals@,
            associated_constraint: self.associated_constraint,
            active: self.active,
        }
    }
}

impl View for SubComponent {
    type V = SubComponentModel;

    open spec fn view(&self) -> SubComponentModel {
        SubComponentModel {
            input_signals: self.input_signals@,
            output_signals: self.output_signals@,
            not_yet_fixed_inputs: self.not_yet_fixed_inputs@,
        }
    }
}

impl View for Substitution {
    type V = SubstitutionModel;

    open spec fn view(&self) -> SubstitutionModel {
        SubstitutionModel { from: self.from, to: self.to.entries() }
    }
}

impl View for PolynomialSystemHighlight {
    type V = HighlightModel;

    open spec fn view(&self) -> HighlightModel {
        HighlightModel {
            nodes: self.nodes@,
            safe_assignments: self.safe_assignments@,
            unsafe_constraints: self.unsafe_constraints@,
        }
    }
}

impl View for VerificationGraph {
    type V = GraphModel;

    open spec fn view(&self) -> GraphModel {
        GraphModel {
            nodes: self.nodes@,
            incoming_safe_assignments: self.incoming_safe_assignments@,
            outgoing_safe_assignments: self.outgoing_safe_assignments@.map_values(
                |s: BTreeSet<usize>| s@,
            ),
            edge_constraints: self.edge_constraints@.map_values(|s: BTreeSet<usize>| s@),
            subcomponents: self.subcomponents@.map_values(|c: SubComponent| c@),
            safe_assignments: self.safe_assignments@.map_values(|a: SafeAssignment| a@),
            unsafe_constraints: self.unsafe_constraints@.map_values(|c: UnsafeConstraint| c@),
            substitutions: self.substitutions@.map_values(|s: Substitution| s@),
            fixed_nodes: self.fixed_nodes@,
            highlight: self.debug_polynomial_system_generator_data@,
        }
    }
}

/// The `count` indices from `start`.
pub open spec fn index_range(start: int, count: int) -> Set<usize> {
    Set::new(|s: usize| start <= s < start + count)
}

/// The kind of `signal` as a signal of the component itself.
pub open spec fn own_node(tree: &TreeConstraints, signal: usize) -> Option<Node> {
    if tree.is_output(signal) {
        Some(Node::OutputSignal)
    } else if tree.is_input(signal) {
        Some(Node::InputSignal)
    } else if tree.is_intermediate(signal) {
        Some(Node::IntermediateSignal)
    } else {
        None
    }
}

/// The kind of `signal` as a port of one of the components below. Where
/// several of them claim it, the last one has it. An input port carries the
/// identifier of its component, an output port the component's position.
pub open spec fn port_node(children: Seq<TreeConstraints>, signal: usize) -> Option<Node>
    decreases children.len(),
{
    if children.len() == 0 {
        None
    } else {
        let child = children.last();
        if child.is_output(signal) {
            Some(Node::SubComponentOutputSignal((children.len() - 1) as usize))
        } else if child.is_input(signal) {
            Some(Node::SubComponentInputSignal(child.node_id))
        } else {
            port_node(children.drop_last(), signal)
        }
    }
}

/// The kind of `signal` in the graph of the component: that of a port where
/// it is one, else its kind in the component itself.
pub open spec fn frame_node(tree: &TreeConstraints, signal: usize) -> Option<Node> {
    match port_node(tree.subcomponents@, signal) {
        Some(node) => Some(node),
        None => own_node(tree, signal),
    }
}

/// The nodes of the graph of a component.
pub open spec fn frame_nodes(tree: &TreeConstraints) -> Map<usize, Node> {
    Map::new(|s: usize| frame_node(tree, s) is Some, |s: usize| frame_node(tree, s)->0)
}

/// A component below as the graph first sees it: none of its inputs fixed.
pub open spec fn frame_subcomponent(child: &TreeConstraints) -> SubComponentModel {
    SubComponentModel {
        input_signals: index_range(child.first_input(), child.number_inputs as int),
        output_signals: index_range(child.first_output(), child.number_outputs as int),
        not_yet_fixed_inputs: index_range(child.first_input(), child.number_inputs as int),
    }
}

/// The components below, by position.
pub open spec fn frame_subcomponents(tree: &TreeConstraints) -> Map<usize, SubComponentModel> {
    Map::new(
        |k: usize| k < tree.subcomponents@.len(),
        |k: usize| frame_subcomponent(&tree.subcomponents@[k as int]),
    )
}

/// Gives the `count` indices from `start` the kind `kind`.
fn insert_range(nodes: &mut BTreeMap<usize, Node>, start: usize, count: usize, kind: Node)
    requires
        start + count <= usize::MAX,
    ensures
        forall|s: usize|
            #[trigger] final(nodes)@.contains_key(s) <==> old(nodes)@.contains_key(s) || start <= s
                < start + count,
        forall|s: usize|
            final(nodes)@.contains_key(s) ==> #[trigger] final(nodes)@[s] == if start <= s < start
                + count {
                kind
            } else {
                old(nodes)@[s]
            },
{
    let mut i: usize = 0;
    while i < count
        invariant
            i <= count,
            start + count <= usize::MAX,
            forall|s: usize|
                #[trigger] nodes@.contains_key(s) <==> old(nodes)@.contains_key(s) || start <= s
                    < start + i,
            forall|s: usize|
                nodes@.contains_key(s) ==> #[trigger] nodes@[s] == if start <= s < start + i {
                    kind
                } else {
                    old(nodes)@[s]
                },
        decreases count - i,
    {
        nodes.insert(start + i, kind);
        i = i + 1;
    }
}

/// The set of the `count` indices from `start`.
fn range_set(start: usize, count: usize) -> (r: BTreeSet<usize>)
    requires
        start + count <= usize::MAX,
    ensures
        r@ == index_range(start as int, count as int),
{
    let mut r: BTreeSet<usize> = BTreeSet::new();
    let mut i: usize = 0;
    while i < count
        invariant
            i <= count,
            start + count <= usize::MAX,
            forall|s: usize| r@.contains(s) <==> start <= s < start + i,
        decreases count - i,
    {
        r.insert(start + i);
        i = i + 1;
    }
    assert(r@ =~= index_range(start as int, count as int));
    r
}

/// The nodes of the graph of `tree`.
fn build_nodes(tree: &TreeConstraints) -> (nodes: BTreeMap<usize, Node>)
    requires
        tree.signals_in_bounds(),
        forall|i: int|
            0 <= i < tree.subcomponents@.len() ==> (#[trigger] tree.subcomponents@[i]).ports_in_bounds(),
    ensures
        nodes@ == frame_nodes(tree),
{
    let mut nodes: BTreeMap<usize, Node> = BTreeMap::new();
    insert_range(&mut nodes, tree.initial_signal, tree.number_outputs, Node::OutputSignal);
    insert_range(
        &mut nodes,
        tree.initial_signal + tree.number_outputs,
        tree.number_inputs,
        Node::InputSignal,
    );
    let number_intermediates = tree.number_signals - tree.number_outputs - tree.number_inputs;
    insert_range(
        &mut nodes,
        tree.initial_signal + tree.number_outputs + tree.number_inputs,
        number_intermediates,
        Node::IntermediateSignal,
    );
    assert(forall|s: usize| #[trigger] nodes@.contains_key(s) <==> own_node(tree, s) is Some);
    assert(forall|s: usize|
        nodes@.contains_key(s) ==> #[trigger] nodes@[s] == own_node(tree, s)->0);

    let ghost children = tree.subcomponents@;
    let mut k: usize = 0;
    while k < tree.subcomponents.len()
        invariant
            k <= children.len(),
            children == tree.subcomponents@,
            forall|i: int| 0 <= i < children.len() ==> (#[trigger] children[i]).ports_in_bounds(),
            forall|s: usize|
                #[trigger] nodes@.contains_key(s) <==> port_node(children.take(k as int), s) is Some
                    || own_node(tree, s) is Some,
            forall|s: usize|
                nodes@.contains_key(s) ==> #[trigger] nodes@[s] == match port_node(
                    children.take(k as int),
                    s,
                ) {
                    Some(node) => node,
                    None => own_node(tree, s)->0,
                },
        decreases children.len() - k,
    {
        let child = &tree.subcomponents[k];
        assert(child.ports_in_bounds());
        insert_range(
            &mut nodes,
            child.initial_signal + child.number_outputs,
            child.number_inputs,
            Node::SubComponentInputSignal(child.node_id),
        );
        insert_range(
            &mut nodes,
            child.initial_signal,
            child.number_outputs,
            Node::SubComponentOutputSignal(k),
        );
        proof {
            let next = children.take(k + 1);
            assert(next.drop_last() =~= children.take(k as int));
            assert(next.last() == children[k as int]);
        }
        k = k + 1;
    }
    assert(children.take(k as int) =~= children);
    assert(nodes@ =~= frame_nodes(tree));
    nodes
}

/// The components below `tree`, none of their inputs fixed.
fn build_subcomponents(tree: &TreeConstraints) -> (subcomponents: BTreeMap<usize, SubComponent>)
    requires
        forall|i: int|
            0 <= i < tree.subcomponents@.len() ==> (#[trigger] tree.subcomponents@[i]).ports_in_bounds(),
    ensures
        subcomponents@.map_values(|c: SubComponent| c@) == frame_subcomponents(tree),
{
    let mut subcomponents: BTreeMap<usize, SubComponent> = BTreeMap::new();
    let mut k: usize = 0;
    while k < tree.subcomponents.len()
        invariant
            k <= tree.subcomponents@.len(),
            forall|i: int|
                0 <= i < tree.subcomponents@.len() ==> (#[trigger] tree.subcomponents@[i]).ports_in_bounds(),
            forall|j: usize| subcomponents@.contains_key(j) <==> j < k,
            forall|j: usize|
                j < k ==> (#[trigger] subcomponents@[j])@ == frame_subcomponent(
                    &tree.subcomponents@[j as int],
                ),
        decreases tree.subcomponents@.len() - k,
    {
        let child = &tree.subcomponents[k];
        assert(child.ports_in_bounds());
        let inputs = range_set(child.initial_signal + child.number_outputs, child.number_inputs);
        let outputs = range_set(child.initial_signal, child.number_outputs);
        let not_yet_fixed = inputs.clone();
        subcomponents.insert(
            k,
            SubComponent {
                input_signals: inputs,
                output_signals: outputs,
                not_yet_fixed_inputs: not_yet_fixed,
            },
        );
        k = k + 1;
    }
    assert(subcomponents@.map_values(|c: SubComponent| c@) =~~= frame_subcomponents(tree));
    subcomponents
}

/// Some set of the sequence holds `signal`.
pub open spec fn occurs(sets: Seq<Set<usize>>, signal: usize) -> bool {
    exists|i: int| 0 <= i < sets.len() && (#[trigger] sets[i]).contains(signal)
}

/// The positions of the sets that hold `signal`.
pub open spec fn occurrences(sets: Seq<Set<usize>>, signal: usize) -> Set<usize> {
    Set::new(|i: usize| i < sets.len() && sets[i as int].contains(signal))
}

/// For each signal that occurs in some set, the positions of the sets it
/// occurs in.
pub open spec fn signal_index(sets: Seq<Set<usize>>) -> Map<usize, Set<usize>> {
    Map::new(|s: usize| occurs(sets, s), |s: usize| occurrences(sets, s))
}

/// The right-hand sides of the safe assignments, in order.
pub open spec fn rhs_sets(safe: Seq<SafeAssignmentModel>) -> Seq<Set<usize>> {
    safe.map_values(|a: SafeAssignmentModel| a.rhs_signals)
}

/// The signal sets of the unsafe constraints, in order.
pub open spec fn signal_sets(constraints: Seq<UnsafeConstraintModel>) -> Seq<Set<usize>> {
    constraints.map_values(|c: UnsafeConstraintModel| c.signals)
}

/// For each assigned signal, the last safe assignment that assigns it.
pub open spec fn incoming_index(safe: Seq<SafeAssignmentModel>) -> Map<usize, usize>
    decreases safe.len(),
{
    if safe.len() == 0 {
        Map::empty()
    } else {
        incoming_index(safe.drop_last()).insert(
            safe.last().lhs_signal,
            (safe.len() - 1) as usize,
        )
    }
}

/// The indices of a graph agree with its lists of edges.
pub open spec fn indices_consistent(g: GraphModel) -> bool {
    &&& g.incoming_safe_assignments == incoming_index(g.safe_assignments)
    &&& g.outgoing_safe_assignments == signal_index(rhs_sets(g.safe_assignments))
    &&& g.edge_constraints == signal_index(signal_sets(g.unsafe_constraints))
}

/// The signal that the list declares the constraint to assign, where it
/// declares it a safe assignment. Of several entries for a constraint the
/// first counts.
pub open spec fn declared_lhs(pairs: Seq<(usize, usize)>, constraint: usize) -> Option<usize>
    decreases pairs.len(),
{
    if pairs.len() == 0 {
        None
    } else {
        match declared_lhs(pairs.drop_last(), constraint) {
            Some(lhs) => Some(lhs),
            None => if pairs.last().0 == constraint {
                Some(pairs.last().1)
            } else {
                None
            },
        }
    }
}

/// The tree declares `constraint` a safe assignment.
pub open spec fn is_double_arrow(tree: &TreeConstraints, constraint: usize) -> bool {
    declared_lhs(tree.are_double_arrow@, constraint) is Some
}

/// The safe assignment made of the constraint with index `constraint`,
/// which assigns `lhs`.
pub open spec fn frame_safe_assignment(
    constraint: usize,
    lhs: usize,
    storage: Seq<ConstraintModel>,
) -> SafeAssignmentModel {
    SafeAssignmentModel {
        lhs_signal: lhs,
        rhs_signals: storage[constraint as int].signals().remove(lhs),
        associated_constraint: constraint,
        active: true,
    }
}

/// The safe assignments among the first `count` constraints of a
/// component: those that the tree declares safe assignments, in ascending
/// order.
pub open spec fn frame_safe_assignments(
    tree: &TreeConstraints,
    storage: Seq<ConstraintModel>,
    count: nat,
) -> Seq<SafeAssignmentModel>
    decreases count,
{
    if count == 0 {
        Seq::empty()
    } else {
        let before = frame_safe_assignments(tree, storage, (count - 1) as nat);
        let constraint = (tree.initial_constraint + count - 1) as usize;
        match declared_lhs(tree.are_double_arrow@, constraint) {
            Some(lhs) => before.push(frame_safe_assignment(constraint, lhs, storage)),
            None => before,
        }
    }
}

/// The unsafe constraint made of the constraint with index `constraint`.
pub open spec fn frame_unsafe_constraint(
    constraint: usize,
    storage: Seq<ConstraintModel>,
) -> UnsafeConstraintModel {
    UnsafeConstraintModel {
        signals: storage[constraint as int].signals(),
        associated_constraint: constraint,
        active: true,
    }
}

/// The unsafe constraints among the first `count` constraints of a
/// component: those that the tree does not declare safe assignments, in
/// ascending order.
pub open spec fn frame_unsafe_constraints(
    tree: &TreeConstraints,
    storage: Seq<ConstraintModel>,
    count: nat,
) -> Seq<UnsafeConstraintModel>
    decreases count,
{
    if count == 0 {
        Seq::empty()
    } else {
        let before = frame_unsafe_constraints(tree, storage, (count - 1) as nat);
        let constraint = (tree.initial_constraint + count - 1) as usize;
        if is_double_arrow(tree, constraint) {
            before
        } else {
            before.push(frame_unsafe_constraint(constraint, storage))
        }
    }
}

/// Enters the edge with position `edge` and signal set `signals` into an index.
fn add_to_index(
    index: &mut BTreeMap<usize, BTreeSet<usize>>,
    signals: &BTreeSet<usize>,
    edge: usize,
    Ghost(sets): Ghost<Seq<Set<usize>>>,
)
    requires
        old(index)@.map_values(|s: BTreeSet<usize>| s@) == signal_index(sets),
        edge == sets.len(),
    ensures
        final(index)@.map_values(|s: BTreeSet<usize>| s@) == signal_index(sets.push(signals@)),
{
    let v = set_to_vec(signals);
    let ghost after = sets.push(signals@);
    proof {
        let mapped = index@.map_values(|s: BTreeSet<usize>| s@);
        assert forall|s: usize| #[trigger] index@.contains_key(s) <==> occurs(sets, s) by {
            assert(mapped.contains_key(s) == index@.contains_key(s));
        }
        assert forall|s: usize| index@.contains_key(s) implies (#[trigger] index@[s])@
            == occurrences(sets, s) by {
            assert(mapped[s] == index@[s]@);
        }
    }
    let mut i: usize = 0;
    while i < v.len()
        invariant
            i <= v@.len(),
            v@.to_set() == signals@,
            strictly_increasing(v@),
            edge == sets.len(),
            after == sets.push(signals@),
            old(index)@.map_values(|s: BTreeSet<usize>| s@) == signal_index(sets),
            forall|s: usize|
                #[trigger] index@.contains_key(s) <==> occurs(sets, s) || exists|k: int|
                    0 <= k < i && v@[k] == s,
            forall|s: usize|
                index@.contains_key(s) ==> (#[trigger] index@[s])@ == if exists|k: int|
                    0 <= k < i && v@[k] == s {
                    occurrences(after, s)
                } else {
                    occurrences(sets, s)
                },
        decreases v@.len() - i,
    {
        let s = v[i];
        let ghost before = index@;
        assert(signals@.contains(s)) by {
            assert(v@.contains(s));
        }
        assert(after[sets.len() as int] == signals@);
        let mut entry = match index.get(&s) {
            Some(existing) => existing.clone(),
            None => BTreeSet::new(),
        };
        entry.insert(edge);
        proof {
            assert(old(index)@.map_values(|s: BTreeSet<usize>| s@).contains_key(s) == occurs(
                sets,
                s,
            ));
            if before.contains_key(s) {
                if exists|k: int| 0 <= k < i && v@[k] == s {
                    let k = choose|k: int| 0 <= k < i && v@[k] == s;
                    assert(strictly_increasing(v@));
                    assert(false);
                }
            } else {
                assert(!occurs(sets, s));
            }
            assert(entry@ =~= occurrences(after, s)) by {
                assert forall|j: usize| entry@.contains(j) <==> occurrences(after, s).contains(
                    j,
                ) by {
                    if j < sets.len() {
                        assert(after[j as int] == sets[j as int]);
                        if sets[j as int].contains(s) {
                            assert(occurs(sets, s));
                        }
                    }
                }
            }
        }
        index.insert(s, entry);
        assert forall|t: usize| #[trigger]
            index@.contains_key(t) implies index@[t]@ == if exists|k: int|
            0 <= k < i + 1 && v@[k] == t {
            occurrences(after, t)
        } else {
            occurrences(sets, t)
        } by {
            if t != s {
                assert(before.contains_key(t));
                if exists|k: int| 0 <= k < i + 1 && v@[k] == t {
                    let k = choose|k: int| 0 <= k < i + 1 && v@[k] == t;
                    assert(k < i);
                }
            } else {
                assert(v@[i as int] == t);
            }
        }
        i = i + 1;
    }
    proof {
        let got = index@.map_values(|s: BTreeSet<usize>| s@);
        let want = signal_index(after);
        assert forall|s: usize| got.contains_key(s) <==> want.contains_key(s) by {
            if occurs(after, s) {
                let j = choose|j: int| 0 <= j < after.len() && (#[trigger] after[j]).contains(s);
                if j < sets.len() {
                    assert(sets[j].contains(s));
                } else {
                    assert(v@.to_set().contains(s));
                    assert(v@.contains(s));
                }
            }
            if occurs(sets, s) {
                let j = choose|j: int| 0 <= j < sets.len() && (#[trigger] sets[j]).contains(s);
                assert(after[j].contains(s));
            }
            if exists|k: int| 0 <= k < v@.len() && v@[k] == s {
                assert(v@.contains(s));
                assert(after[sets.len() as int].contains(s));
            }
        }
        assert forall|s: usize| got.contains_key(s) implies got[s] =~= want[s] by {
            if !(exists|k: int| 0 <= k < v@.len() && v@[k] == s) {
                assert(!v@.contains(s));
                assert(!signals@.contains(s));
                assert forall|j: usize| occurrences(sets, s).contains(j) <==> occurrences(
                    after,
                    s,
                ).contains(j) by {
                    if j < sets.len() {
                        assert(after[j as int] == sets[j as int]);
                    }
                }
            }
        }
        assert(got =~~= want);
    }
}

/// The constraint `reduced`, which stands for an unsafe constraint over
/// `signals`, determines `signal`: it is the only signal, the constraint is
/// linear, and the coefficient of the signal is not zero.
pub open spec fn determined_by(signals: Set<usize>, reduced: ConstraintModel, signal: usize) -> bool {
    &&& signals =~= set![signal]
    &&& reduced.is_linear()
    &&& term_coefficient(reduced.c, signal) != 0
}

/// One of the first `count` safe assignments defines `signal` by constants
/// alone.
pub open spec fn fixed_by_constants(safe: Seq<SafeAssignmentModel>, count: int, signal: usize) -> bool {
    exists|i: int|
        0 <= i < count && (#[trigger] safe[i]).lhs_signal == signal
            && safe[i].rhs_signals.is_empty()
}

/// One of the first `count` unsafe constraints determines `signal`, each
/// judged by the constraint that it is made of.
pub open spec fn fixed_by_constraint(
    constraints: Seq<UnsafeConstraintModel>,
    storage: Seq<ConstraintModel>,
    count: int,
    signal: usize,
) -> bool {
    exists|j: int|
        0 <= j < count && determined_by(
            (#[trigger] constraints[j]).signals,
            storage[constraints[j].associated_constraint as int],
            signal,
        )
}

/// `signal` is fixed from the start: it is an input of the component, or a
/// safe assignment defines it by constants alone, or an unsafe constraint
/// determines it.
pub open spec fn initially_fixed(
    tree: &TreeConstraints,
    storage: Seq<ConstraintModel>,
    signal: usize,
) -> bool {
    let safe = frame_safe_assignments(tree, storage, tree.no_constraints as nat);
    let constraints = frame_unsafe_constraints(tree, storage, tree.no_constraints as nat);
    ||| tree.is_input(signal)
    ||| fixed_by_constants(safe, safe.len() as int, signal)
    ||| fixed_by_constraint(constraints, storage, constraints.len() as int, signal)
}

/// The graph of a component before any propagation.
pub open spec fn initial_graph(tree: &TreeConstraints, storage: Seq<ConstraintModel>) -> GraphModel {
    let safe = frame_safe_assignments(tree, storage, tree.no_constraints as nat);
    let constraints = frame_unsafe_constraints(tree, storage, tree.no_constraints as nat);
    GraphModel {
        nodes: frame_nodes(tree),
        incoming_safe_assignments: incoming_index(safe),
        outgoing_safe_assignments: signal_index(rhs_sets(safe)),
        edge_constraints: signal_index(signal_sets(constraints)),
        subcomponents: frame_subcomponents(tree),
        safe_assignments: safe,
        unsafe_constraints: constraints,
        substitutions: Seq::empty(),
        fixed_nodes: Set::new(|s: usize| initially_fixed(tree, storage, s)),
        highlight: HighlightModel {
            nodes: Set::empty(),
            safe_assignments: Set::empty(),
            unsafe_constraints: Set::empty(),
        },
    }
}

/// Every unsafe constraint of a component names a constraint of its range.
pub proof fn lemma_frame_unsafe_constraints(
    tree: &TreeConstraints,
    storage: Seq<ConstraintModel>,
    count: nat,
)
    requires
        tree.initial_constraint + count <= usize::MAX,
    ensures
        frame_unsafe_constraints(tree, storage, count).len() <= count,
        forall|j: int|
            0 <= j < frame_unsafe_constraints(tree, storage, count).len() ==> {
                let c = (#[trigger] frame_unsafe_constraints(tree, storage, count)[j]);
                &&& tree.initial_constraint <= c.associated_constraint < tree.initial_constraint
                    + count
                &&& !is_double_arrow(tree, c.associated_constraint)
                &&& c == frame_unsafe_constraint(c.associated_constraint, storage)
            },
    decreases count,
{
    if count > 0 {
        lemma_frame_unsafe_constraints(tree, storage, (count - 1) as nat);
        let before = frame_unsafe_constraints(tree, storage, (count - 1) as nat);
        let now = frame_unsafe_constraints(tree, storage, count);
        let constraint = (tree.initial_constraint + count - 1) as usize;
        assert forall|j: int| 0 <= j < now.len() implies {
            let c = #[trigger] now[j];
            &&& tree.initial_constraint <= c.associated_constraint < tree.initial_constraint
                + count
            &&& !is_double_arrow(tree, c.associated_constraint)
            &&& c == frame_unsafe_constraint(c.associated_constraint, storage)
        } by {
            if j < before.len() {
                assert(now[j] == before[j]);
            }
        }
    }
}

/// For each constraint that the tree declares a safe assignment, the signal
/// that it assigns.
fn declared_assignments(tree: &TreeConstraints) -> (declared: BTreeMap<usize, usize>)
    ensures
        forall|c: usize|
            #[trigger] declared@.contains_key(c) <==> declared_lhs(tree.are_double_arrow@, c)
                is Some,
        forall|c: usize|
            declared@.contains_key(c) ==> Some(#[trigger] declared@[c]) == declared_lhs(
                tree.are_double_arrow@,
                c,
            ),
{
    let mut declared: BTreeMap<usize, usize> = BTreeMap::new();
    let ghost pairs = tree.are_double_arrow@;
    let mut i: usize = 0;
    while i < tree.are_double_arrow.len()
        invariant
            i <= pairs.len(),
            pairs == tree.are_double_arrow@,
            forall|c: usize|
                #[trigger] declared@.contains_key(c) <==> declared_lhs(pairs.take(i as int), c)
                    is Some,
            forall|c: usize|
                declared@.contains_key(c) ==> Some(#[trigger] declared@[c]) == declared_lhs(
                    pairs.take(i as int),
                    c,
                ),
        decreases pairs.len() - i,
    {
        let constraint = tree.are_double_arrow[i].0;
        let lhs = tree.are_double_arrow[i].1;
        proof {
            let next = pairs.take(i + 1);
            assert(next.drop_last() =~= pairs.take(i as int));
            assert(next.last() == pairs[i as int]);
        }
        if !declared.contains_key(&constraint) {
            declared.insert(constraint, lhs);
        }
        i = i + 1;
    }
    assert(pairs.take(i as int) =~= pairs);
    declared
}

/// The safe assignments of a component with their two indices.
fn build_safe_assignments(
    tree: &TreeConstraints,
    storage: &ConstraintStorage,
    declared: &BTreeMap<usize, usize>,
) -> (r: (Vec<SafeAssignment>, BTreeMap<usize, usize>, BTreeMap<usize, BTreeSet<usize>>))
    requires
        storage.wf(),
        tree.initial_constraint + tree.no_constraints <= storage@.len(),
        forall|c: usize|
            #[trigger] declared@.contains_key(c) <==> declared_lhs(tree.are_double_arrow@, c)
                is Some,
        forall|c: usize|
            declared@.contains_key(c) ==> Some(#[trigger] declared@[c]) == declared_lhs(
                tree.are_double_arrow@,
                c,
            ),
    ensures
        r.0@.map_values(|a: SafeAssignment| a@) == frame_safe_assignments(
            tree,
            storage@,
            tree.no_constraints as nat,
        ),
        r.1@ == incoming_index(
            frame_safe_assignments(tree, storage@, tree.no_constraints as nat),
        ),
        r.2@.map_values(|s: BTreeSet<usize>| s@) == signal_index(
            rhs_sets(frame_safe_assignments(tree, storage@, tree.no_constraints as nat)),
        ),
{
    let mut safe_assignments: Vec<SafeAssignment> = Vec::new();
    let mut incoming: BTreeMap<usize, usize> = BTreeMap::new();
    let mut outgoing: BTreeMap<usize, BTreeSet<usize>> = BTreeMap::new();
    assert(safe_assignments@.map_values(|a: SafeAssignment| a@) =~= frame_safe_assignments(
        tree,
        storage@,
        0,
    ));
    assert(incoming@ =~= incoming_index(frame_safe_assignments(tree, storage@, 0)));
    assert(outgoing@.map_values(|s: BTreeSet<usize>| s@) =~~= signal_index(
        rhs_sets(frame_safe_assignments(tree, storage@, 0)),
    ));
    let total = storage.len();
    let mut n: usize = 0;
    while n < tree.no_constraints
        invariant
            n <= tree.no_constraints,
            total == storage@.len(),
            storage.wf(),
            tree.initial_constraint + tree.no_constraints <= storage@.len(),
            forall|c: usize|
                #[trigger] declared@.contains_key(c) <==> declared_lhs(tree.are_double_arrow@, c)
                    is Some,
            forall|c: usize|
                declared@.contains_key(c) ==> Some(#[trigger] declared@[c]) == declared_lhs(
                    tree.are_double_arrow@,
                    c,
                ),
            safe_assignments@.map_values(|a: SafeAssignment| a@) == frame_safe_assignments(
                tree,
                storage@,
                n as nat,
            ),
            incoming@ == incoming_index(frame_safe_assignments(tree, storage@, n as nat)),
            outgoing@.map_values(|s: BTreeSet<usize>| s@) == signal_index(
                rhs_sets(frame_safe_assignments(tree, storage@, n as nat)),
            ),
        decreases tree.no_constraints - n,
    {
        let constraint_index = tree.initial_constraint + n;
        let ghost before = frame_safe_assignments(tree, storage@, n as nat);
        match declared.get(&constraint_index) {
            Some(lhs) => {
                let lhs_signal = *lhs;
                assert(declared@.contains_key(constraint_index));
                let constraint = storage.read_constraint(constraint_index).unwrap();
                let mut signals = constraint.take_cloned_signals_ordered();
                signals.remove(&lhs_signal);
                let index = safe_assignments.len();
                incoming.insert(lhs_signal, index);
                add_to_index(&mut outgoing, &signals, index, Ghost(rhs_sets(before)));
                safe_assignments.push(
                    SafeAssignment {
                        lhs_signal,
                        rhs_signals: signals,
                        associated_constraint: constraint_index,
                        active: true,
                    },
                );
                proof {
                    let next = frame_safe_assignments(tree, storage@, (n + 1) as nat);
                    assert(next == before.push(
                        frame_safe_assignment(constraint_index, lhs_signal, storage@),
                    ));
                    assert(next.drop_last() =~= before);
                    assert(safe_assignments@.map_values(|a: SafeAssignment| a@) =~= next);
                    assert(rhs_sets(next) =~= rhs_sets(before).push(signals@));
                }
            },
            None => {
                assert(!declared@.contains_key(constraint_index));
            },
        }
        n = n + 1;
    }
    (safe_assignments, incoming, outgoing)
}

/// The unsafe constraints of a component with their index.
fn build_unsafe_constraints(
    tree: &TreeConstraints,
    storage: &ConstraintStorage,
    declared: &BTreeMap<usize, usize>,
) -> (r: (Vec<UnsafeConstraint>, BTreeMap<usize, BTreeSet<usize>>))
    requires
        storage.wf(),
        tree.initial_constraint + tree.no_constraints <= storage@.len(),
        forall|c: usize| #[trigger] declared@.contains_key(c) <==> is_double_arrow(tree, c),
    ensures
        r.0@.map_values(|c: UnsafeConstraint| c@) == frame_unsafe_constraints(
            tree,
            storage@,
            tree.no_constraints as nat,
        ),
        r.1@.map_values(|s: BTreeSet<usize>| s@) == signal_index(
            signal_sets(frame_unsafe_constraints(tree, storage@, tree.no_constraints as nat)),
        ),
{
    let mut unsafe_constraints: Vec<UnsafeConstraint> = Vec::new();
    let mut edge_constraints: BTreeMap<usize, BTreeSet<usize>> = BTreeMap::new();
    assert(unsafe_constraints@.map_values(|c: UnsafeConstraint| c@) =~= frame_unsafe_constraints(
        tree,
        storage@,
        0,
    ));
    assert(edge_constraints@.map_values(|s: BTreeSet<usize>| s@) =~~= signal_index(
        signal_sets(frame_unsafe_constraints(tree, storage@, 0)),
    ));
    let total = storage.len();
    let mut n: usize = 0;
    while n < tree.no_constraints
        invariant
            n <= tree.no_constraints,
            total == storage@.len(),
            storage.wf(),
            tree.initial_constraint + tree.no_constraints <= storage@.len(),
            forall|c: usize| #[trigger] declared@.contains_key(c) <==> is_double_arrow(tree, c),
            unsafe_constraints@.map_values(|c: UnsafeConstraint| c@) == frame_unsafe_constraints(
                tree,
                storage@,
                n as nat,
            ),
            edge_constraints@.map_values(|s: BTreeSet<usize>| s@) == signal_index(
                signal_sets(frame_unsafe_constraints(tree, storage@, n as nat)),
            ),
        decreases tree.no_constraints - n,
    {
        let constraint_index = tree.initial_constraint + n;
        let ghost before = frame_unsafe_constraints(tree, storage@, n as nat);
        if !declared.contains_key(&constraint_index) {
            let constraint = storage.read_constraint(constraint_index).unwrap();
            let signals = constraint.take_cloned_signals_ordered();
            let index = unsafe_constraints.len();
            add_to_index(&mut edge_constraints, &signals, index, Ghost(signal_sets(before)));
            unsafe_constraints.push(
                UnsafeConstraint { signals, associated_constraint: constraint_index, active: true },
            );
            proof {
                let next = frame_unsafe_constraints(tree, storage@, (n + 1) as nat);
                assert(next == before.push(frame_unsafe_constraint(constraint_index, storage@)));
                assert(unsafe_constraints@.map_values(|c: UnsafeConstraint| c@) =~= next);
                assert(signal_sets(next) =~= signal_sets(before).push(signals@));
            }
        }
        n = n + 1;
    }
    (unsafe_constraints, edge_constraints)
}

/// Seeds the fixed signals with the signal that a safe assignment defines
/// by constants alone.
fn seed_from_safe_assignment(
    fixed_nodes: &mut BTreeSet<SignalIndex>,
    assignment: &SafeAssignment,
)
    ensures
        final(fixed_nodes)@ == if assignment@.rhs_signals.is_empty() {
            old(fixed_nodes)@.insert(assignment.lhs_signal)
        } else {
            old(fixed_nodes)@
        },
{
    if assignment.rhs_signals.is_empty() {
        fixed_nodes.insert(assignment.lhs_signal);
    }
}

/// Seeds the fixed signals with the only signal of an unsafe constraint
/// that determines it.
fn seed_from_unsafe_constraint(
    fixed_nodes: &mut BTreeSet<SignalIndex>,
    unsafe_constraint: &UnsafeConstraint,
    substituted_constraint: &Constraint,
)
    requires
        substituted_constraint.wf(),
    ensures
        forall|s: usize|
            final(fixed_nodes)@.contains(s) <==> old(fixed_nodes)@.contains(s) || determined_by(
                unsafe_constraint@.signals,
                substituted_constraint@,
                s,
            ),
{
    let signals = set_to_vec(&unsafe_constraint.signals);
    proof {
        assert forall|s: usize| unsafe_constraint.signals@ =~= set![s] implies signals@.len() == 1
            && signals@[0] == s by {
            assert(signals@.to_set().contains(s));
            assert(signals@.contains(s));
            if signals@.len() > 1 {
                assert(signals@.to_set().contains(signals@[0]));
                assert(signals@.to_set().contains(signals@[1]));
                assert(signals@[0] < signals@[1]);
            }
        }
    }
    if signals.len() == 1 {
        let signal = signals[0];
        proof {
            assert(unsafe_constraint.signals@ =~= set![signal]) by {
                assert forall|s: usize| signals@.to_set().contains(s) implies s == signal by {
                    assert(signals@.contains(s));
                }
                assert(signals@.contains(signals@[0]));
            }
            substituted_constraint.lemma_wf_ordered();
        }
        if substituted_constraint.is_linear() {
            match substituted_constraint.c().get(signal) {
                Some(coefficient) => {
                    if !coefficient.is_zero() {
                        fixed_nodes.insert(signal);
                    }
                },
                None => {
                    proof {
                        crate::algebra::lemma_absent_coefficient(
                            substituted_constraint@.c,
                            signal,
                        );
                    }
                },
            }
        }
    }
}

/// The rule of safe assignments on one of them. If the assignment is
/// active and every signal on its right-hand side is fixed, it fires: the
/// signal that it assigns becomes fixed and the assignment inactive.
/// Otherwise nothing changes.
pub fn propagate_fixed_node_in_safe_assignment(
    fixed_nodes: &mut BTreeSet<SignalIndex>,
    assignment: &mut SafeAssignment,
)
    ensures
        final(fixed_nodes)@ == if fires(old(assignment)@, old(fixed_nodes)@) {
            old(fixed_nodes)@.insert(old(assignment).lhs_signal)
        } else {
            old(fixed_nodes)@
        },
        final(assignment)@ == after_firing(old(assignment)@, old(fixed_nodes)@),
        fires(old(assignment)@, old(fixed_nodes)@) ==> final(fixed_nodes)@.contains(
            old(assignment).lhs_signal,
        ) && !final(assignment).active,
        final(assignment).active ==> exists|s: usize|
            final(assignment)@.rhs_signals.contains(s) && !final(fixed_nodes)@.contains(s),
{
    if assignment.active && is_subset(&assignment.rhs_signals, fixed_nodes) {
        fixed_nodes.insert(assignment.lhs_signal);
        assignment.active = false;
    }
}

/// The rule of unsafe constraints on one of them. The constraint is judged
/// by `substituted_constraint`: the constraint it is made of, after the
/// substitutions found so far. If the constraint is active, one of its
/// signals alone is not fixed, and the substituted constraint is linear
/// with a coefficient for that signal that is not zero, the signal becomes
/// fixed and the constraint inactive; the signal is returned, for the
/// substitution that the constraint now yields is due. Otherwise nothing
/// changes.
pub fn propagate_fixed_node_in_unsafe_constraint(
    fixed_nodes: &mut BTreeSet<SignalIndex>,
    unsafe_constraint: &mut UnsafeConstraint,
    substituted_constraint: &Constraint,
) -> (r: Option<SignalIndex>)
    requires
        substituted_constraint.wf(),
    ensures
        match r {
            Some(signal) => {
                &&& linearises(
                    old(unsafe_constraint)@,
                    substituted_constraint@,
                    old(fixed_nodes)@,
                    signal,
                )
                &&& final(fixed_nodes)@ == old(fixed_nodes)@.insert(signal)
                &&& final(unsafe_constraint)@ == (UnsafeConstraintModel {
                    active: false,
                    ..old(unsafe_constraint)@
                })
            },
            None => {
                &&& forall|s: usize|
                    !linearises(
                        old(unsafe_constraint)@,
                        substituted_constraint@,
                        old(fixed_nodes)@,
                        s,
                    )
                &&& final(fixed_nodes)@ == old(fixed_nodes)@
                &&& final(unsafe_constraint)@ == old(unsafe_constraint)@
            },
        },
{
    if !unsafe_constraint.active {
        return None;
    }
    let ghost here = unsafe_constraint@;
    let ghost fixed_before = fixed_nodes@;
    let remaining = difference_to_vec(&unsafe_constraint.signals, fixed_nodes);
    proof {
        assert forall|s: usize|
            here.signals.difference(fixed_before) =~= set![s] implies remaining@.len() == 1
            && remaining@[0] == s by {
            assert(here.signals.difference(fixed_before).contains(s));
            assert(remaining@.to_set().contains(s));
            assert(remaining@.contains(s));
            if remaining@.len() > 1 {
                assert(remaining@.to_set().contains(remaining@[0]));
                assert(remaining@.to_set().contains(remaining@[1]));
                assert(remaining@[0] < remaining@[1]);
            }
        }
    }
    if remaining.len() != 1 {
        return None;
    }
    let signal = remaining[0];
    proof {
        assert(here.signals.difference(fixed_before) =~= set![signal]) by {
            assert forall|s: usize| remaining@.to_set().contains(s) implies s == signal by {
                assert(remaining@.contains(s));
            }
            assert(remaining@.contains(remaining@[0]));
            assert(remaining@.to_set().contains(signal));
        }
        substituted_constraint.lemma_wf_ordered();
    }
    if !substituted_constraint.is_linear() {
        return None;
    }
    match substituted_constraint.c().get(signal) {
        Some(coefficient) => {
            if coefficient.is_zero() {
                return None;
            }
        },
        None => {
            proof {
                crate::algebra::lemma_absent_coefficient(substituted_constraint@.c, signal);
            }
            return None;
        },
    }
    fixed_nodes.insert(signal);
    unsafe_constraint.active = false;
    Some(signal)
}

impl VerificationGraph {
    /// The graph of the component that `context` looks at, before any
    /// propagation. Every input of the component is fixed in it.
    pub fn new(context: &InputDataContextView, constraint_storage: &ConstraintStorage) -> (g:
        VerificationGraph)
        requires
            constraint_storage.wf(),
            context.tree_constraints.frame_wf(constraint_storage@.len()),
        ensures
            g@ == initial_graph(context.tree_constraints, constraint_storage@),
            indices_consistent(g@),
            forall|s: usize| context.tree_constraints.is_input(s) ==> g@.fixed_nodes.contains(s),
    {
        let tree = context.tree_constraints;
        let ghost storage = constraint_storage@;
        let ghost safe = frame_safe_assignments(tree, storage, tree.no_constraints as nat);
        let ghost constraints = frame_unsafe_constraints(tree, storage, tree.no_constraints as nat);

        let nodes = build_nodes(tree);
        let subcomponents = build_subcomponents(tree);
        let declared = declared_assignments(tree);
        let (safe_assignments, incoming_safe_assignments, outgoing_safe_assignments) =
            build_safe_assignments(tree, constraint_storage, &declared);
        let (unsafe_constraints, edge_constraints) = build_unsafe_constraints(
            tree,
            constraint_storage,
            &declared,
        );

        let mut fixed_nodes = range_set(tree.initial_signal + tree.number_outputs, tree.number_inputs);

        let mut i: usize = 0;
        while i < safe_assignments.len()
            invariant
                i <= safe.len(),
                safe_assignments@.map_values(|a: SafeAssignment| a@) == safe,
                forall|s: usize|
                    #[trigger] fixed_nodes@.contains(s) <==> tree.is_input(s) || fixed_by_constants(
                        safe,
                        i as int,
                        s,
                    ),
            decreases safe.len() - i,
        {
            assert(safe[i as int] == safe_assignments@[i as int]@);
            seed_from_safe_assignment(&mut fixed_nodes, &safe_assignments[i]);
            proof {
                assert forall|s: usize|
                    fixed_by_constants(safe, i + 1, s) <==> fixed_by_constants(safe, i as int, s) || (
                    safe[i as int].lhs_signal == s && safe[i as int].rhs_signals.is_empty()) by {
                    if fixed_by_constants(safe, i + 1, s) {
                        let k = choose|k: int|
                            0 <= k < i + 1 && (#[trigger] safe[k]).lhs_signal == s
                                && safe[k].rhs_signals.is_empty();
                        if k < i {
                            assert(fixed_by_constants(safe, i as int, s));
                        }
                    }
                }
            }
            i = i + 1;
        }

        let total = constraint_storage.len();
        proof {
            lemma_frame_unsafe_constraints(tree, storage, tree.no_constraints as nat);
        }
        let mut j: usize = 0;
        while j < unsafe_constraints.len()
            invariant
                j <= constraints.len(),
                constraint_storage.wf(),
                storage == constraint_storage@,
                unsafe_constraints@.map_values(|c: UnsafeConstraint| c@) == constraints,
                forall|k: int|
                    0 <= k < constraints.len() ==> (#[trigger] constraints[k]).associated_constraint
                        < storage.len(),
                forall|s: usize|
                    #[trigger] fixed_nodes@.contains(s) <==> tree.is_input(s) || fixed_by_constants(
                        safe,
                        safe.len() as int,
                        s,
                    ) || fixed_by_constraint(constraints, storage, j as int, s),
            decreases constraints.len() - j,
        {
            assert(constraints[j as int] == unsafe_constraints@[j as int]@);
            let unsafe_constraint = &unsafe_constraints[j];
            let constraint = constraint_storage.read_constraint(
                unsafe_constraint.associated_constraint,
            ).unwrap();
            seed_from_unsafe_constraint(&mut fixed_nodes, unsafe_constraint, constraint);
            proof {
                let here = constraints[j as int];
                assert forall|s: usize|
                    fixed_by_constraint(constraints, storage, j + 1, s) <==> fixed_by_constraint(
                        constraints,
                        storage,
                        j as int,
                        s,
                    ) || determined_by(
                        here.signals,
                        storage[here.associated_constraint as int],
                        s,
                    ) by {
                    if fixed_by_constraint(constraints, storage, j + 1, s) {
                        let k = choose|k: int|
                            0 <= k < j + 1 && determined_by(
                                (#[trigger] constraints[k]).signals,
                                storage[constraints[k].associated_constraint as int],
                                s,
                            );
                        if k < j {
                            assert(fixed_by_constraint(constraints, storage, j as int, s));
                        }
                    }
                }
            }
            j = j + 1;
        }

        let g = VerificationGraph {
            nodes,
            incoming_safe_assignments,
            outgoing_safe_assignments,
            edge_constraints,
            subcomponents,
            safe_assignments,
            unsafe_constraints,
            substitutions: Vec::new(),
            fixed_nodes,
            debug_polynomial_system_generator_data: PolynomialSystemHighlight {
                nodes: BTreeSet::new(),
                safe_assignments: BTreeSet::new(),
                unsafe_constraints: BTreeSet::new(),
            },
        };
        proof {
            let want = initial_graph(tree, storage);
            assert(g@.fixed_nodes =~= want.fixed_nodes);
            assert(g@.substitutions =~= want.substitutions);
            assert(g@ =~~= want);
        }
        g
    }
}

} // verus!
