//! From what propagation left over to polynomial systems.
//!
//! The unsafe constraints that are still active fall into connected
//! components: two of them belong together when they share a signal that is
//! not fixed. Each component is one polynomial system. What it has to fix
//! are those of its signals that are not fixed and that others rely on: the
//! outputs of the component under analysis and the inputs of the components
//! below it. A component with no such signal asks for nothing.
//!
//! Where constraints with a product and their signals form a cycle, no
//! linear constraint breaks the cycle, and no system is formed. Constraints
//! and signals that hang together hold a cycle exactly when there are at
//! least as many occurrences of a signal in a constraint as there are
//! constraints and signals together.

use crate::algebra::{constraint_models, Constraint, ConstraintModel};
use crate::components::{
    connected, label_components, labels_components, lemma_connected_reflexive,
    lemma_same_label_connected, set_views,
};
use crate::input_data::InputDataContextView;
use crate::signal_set::{difference_to_vec, insert_all, set_len, set_to_vec, vec_to_set};
use crate::verdict::{
    system_models, PolynomialSystemFixedSignal, PolynomialSystemModel, VerificationException,
};
use crate::verification_graph::{GraphModel, Node, VerificationGraph};
use std::collections::BTreeSet;
use vstd::prelude::*;

verus! {

/// For each unsafe constraint, its signals that are still to be fixed: those
/// of its signals that are not fixed if it is active, none if it is not.
pub open spec fn pending(g: GraphModel) -> Seq<Set<usize>> {
    Seq::new(
        g.unsafe_constraints.len(),
        |j: int|
            if g.unsafe_constraints[j].active {
                g.unsafe_constraints[j].signals.difference(g.fixed_nodes)
            } else {
                Set::empty()
            },
    )
}

/// Others rely on the signal: it is an output of the component under
/// analysis or an input of a component below it.
///
/// These are the signals that a polynomial system has to fix, and the
/// choice is deliberate. The outputs of the component are what the verdict
/// is about. The outputs of a component below that has been activated are
/// fixed at that moment, so none of them is ever left among the signals
/// still to be fixed of a constraint; to ask a system of this component for
/// them would be to ask its constraints for what the constraints of the
/// component below decide. What stands for them is the inputs of the
/// components below that are not fixed yet: once they are fixed the
/// component below is activated, its outputs follow, and safe assignments
/// carry the fixing on. Intermediate signals are left out: to fix every
/// signal that an output can be reached from would ask for more than the
/// verdict needs.
pub open spec fn is_relied_on(nodes: Map<usize, Node>, signal: usize) -> bool {
    nodes.contains_key(signal) && (nodes[signal] is OutputSignal
        || nodes[signal] is SubComponentInputSignal)
}

/// The signals still to be fixed of the constraints that have a product;
/// none for a constraint whose reduced form is linear.
pub open spec fn rigid(sets: Seq<Set<usize>>, reductions: Seq<ConstraintModel>) -> Seq<Set<usize>> {
    Seq::new(
        sets.len(),
        |j: int|
            if reductions[j].is_linear() {
                Set::empty()
            } else {
                sets[j]
            },
    )
}

/// The number of occurrences of a signal in a constraint, over the
/// constraints among the first `count` that are connected to the one at
/// position `r`.
pub open spec fn piece_incidences(sets: Seq<Set<usize>>, r: int, count: nat) -> nat
    decreases count,
{
    if count == 0 {
        0
    } else if connected(sets, r, count - 1) {
        piece_incidences(sets, r, (count - 1) as nat) + sets[count - 1].len()
    } else {
        piece_incidences(sets, r, (count - 1) as nat)
    }
}

/// The number of constraints among the first `count` that are connected to
/// the one at position `r`.
pub open spec fn piece_members(sets: Seq<Set<usize>>, r: int, count: nat) -> nat
    decreases count,
{
    if count == 0 {
        0
    } else if connected(sets, r, count - 1) {
        piece_members(sets, r, (count - 1) as nat) + 1
    } else {
        piece_members(sets, r, (count - 1) as nat)
    }
}

/// The constraints and signals that hang together with the constraint at
/// position `r` hold a cycle: there are at least as many occurrences of a
/// signal in a constraint as there are constraints and signals together.
pub open spec fn piece_has_cycle(sets: Seq<Set<usize>>, r: int) -> bool {
    piece_incidences(sets, r, sets.len()) >= piece_members(sets, r, sets.len())
        + component_signals(sets, r, sets.len() as int).len()
}

/// Constraints with a product form a cycle with their signals that are
/// still to be fixed.
pub open spec fn has_unbreakable_cycle(
    sets: Seq<Set<usize>>,
    reductions: Seq<ConstraintModel>,
) -> bool {
    exists|r: int|
        is_representative(rigid(sets, reductions), r) && #[trigger] piece_has_cycle(
            rigid(sets, reductions),
            r,
        )
}

/// The position is the first of a connected component of constraints with
/// signals still to be fixed.
pub open spec fn is_representative(sets: Seq<Set<usize>>, r: int) -> bool {
    &&& 0 <= r < sets.len()
    &&& exists|s: usize| sets[r].contains(s)
    &&& forall|j: int| #[trigger] connected(sets, r, j) ==> r <= j
}

/// The reduced forms of the constraints among the first `count` that are
/// connected to the one at position `r`, in order.
pub open spec fn component_constraints(
    sets: Seq<Set<usize>>,
    reductions: Seq<ConstraintModel>,
    r: int,
    count: nat,
) -> Seq<ConstraintModel>
    decreases count,
{
    if count == 0 {
        Seq::empty()
    } else if connected(sets, r, count - 1) {
        component_constraints(sets, reductions, r, (count - 1) as nat).push(reductions[count - 1])
    } else {
        component_constraints(sets, reductions, r, (count - 1) as nat)
    }
}

/// The signals still to be fixed of the constraints among the first
/// `count` that are connected to the one at position `r`.
pub open spec fn component_signals(sets: Seq<Set<usize>>, r: int, count: int) -> Set<usize> {
    Set::new(
        |s: usize| exists|j: int| 0 <= j < count && connected(sets, r, j) && (#[trigger] sets[j]).contains(s),
    )
}

/// The polynomial system of the component that begins at position `r`: its
/// constraints, and of its signals still to be fixed those that others rely
/// on, as `is_relied_on` says and gives the reason for.
pub open spec fn component_system(
    g: GraphModel,
    reductions: Seq<ConstraintModel>,
    context: &InputDataContextView,
    r: int,
) -> PolynomialSystemModel {
    let sets = pending(g);
    PolynomialSystemModel {
        constraints: component_constraints(sets, reductions, r, sets.len()),
        signals_to_fix: Set::new(
            |s: usize|
                component_signals(sets, r, sets.len() as int).contains(s) && is_relied_on(
                    g.nodes,
                    s,
                ),
        ),
        template_name: context.tree_constraints.template_name@,
        component_name: context.tree_constraints.component_name@,
    }
}

/// The polynomial systems of the components that begin among the first
/// `count` positions and have something to fix, in order.
pub open spec fn component_systems(
    g: GraphModel,
    reductions: Seq<ConstraintModel>,
    context: &InputDataContextView,
    count: nat,
) -> Seq<PolynomialSystemModel>
    decreases count,
{
    if count == 0 {
        Seq::empty()
    } else {
        let before = component_systems(g, reductions, context, (count - 1) as nat);
        let system = component_system(g, reductions, context, count - 1);
        if is_representative(pending(g), count - 1) && exists|s: usize|
            system.signals_to_fix.contains(s) {
            before.push(system)
        } else {
            before
        }
    }
}

/// What is left of the graph asks for these polynomial systems, or cannot
/// be turned into polynomial systems.
pub open spec fn extraction(
    g: GraphModel,
    reductions: Seq<ConstraintModel>,
    context: &InputDataContextView,
) -> Result<Seq<PolynomialSystemModel>, VerificationException> {
    if has_unbreakable_cycle(pending(g), reductions) {
        Err(VerificationException::NoUnsafeConstraintConnectedComponentWithoutCycles)
    } else {
        Ok(component_systems(g, reductions, context, g.unsafe_constraints.len()))
    }
}

/// The signals still to be fixed of each unsafe constraint.
fn pending_sets(graph: &VerificationGraph) -> (r: Vec<BTreeSet<usize>>)
    ensures
        set_views(r@) == pending(graph@),
{
    let ghost want = pending(graph@);
    let mut sets: Vec<BTreeSet<usize>> = Vec::new();
    let mut j: usize = 0;
    while j < graph.unsafe_constraints.len()
        invariant
            j <= graph.unsafe_constraints@.len(),
            want == pending(graph@),
            set_views(sets@) == want.take(j as int),
        decreases graph.unsafe_constraints@.len() - j,
    {
        let constraint = &graph.unsafe_constraints[j];
        assert(graph@.unsafe_constraints[j as int] == constraint@);
        let set = if constraint.active {
            vec_to_set(&difference_to_vec(&constraint.signals, &graph.fixed_nodes))
        } else {
            BTreeSet::new()
        };
        assert(set@ =~= want[j as int]);
        let ghost before = set_views(sets@);
        sets.push(set);
        proof {
            assert(set_views(sets@) =~= before.push(want[j as int]));
            assert(want.take(j + 1) =~= want.take(j as int).push(want[j as int]));
        }
        j = j + 1;
    }
    assert(want.take(j as int) =~= want);
    sets
}

/// The signals still to be fixed of the constraints that have a product.
fn rigid_sets(sets: &Vec<BTreeSet<usize>>, reductions: &Vec<Constraint>) -> (r: Vec<BTreeSet<usize>>)
    requires
        reductions@.len() == sets@.len(),
    ensures
        set_views(r@) == rigid(set_views(sets@), constraint_models(reductions@)),
{
    let ghost want = rigid(set_views(sets@), constraint_models(reductions@));
    let mut out: Vec<BTreeSet<usize>> = Vec::new();
    let mut j: usize = 0;
    while j < sets.len()
        invariant
            j <= sets@.len(),
            reductions@.len() == sets@.len(),
            want == rigid(set_views(sets@), constraint_models(reductions@)),
            set_views(out@) == want.take(j as int),
        decreases sets@.len() - j,
    {
        let set = if reductions[j].is_linear() {
            BTreeSet::new()
        } else {
            sets[j].clone()
        };
        assert(set@ =~= want[j as int]);
        let ghost before = set_views(out@);
        out.push(set);
        proof {
            assert(set_views(out@) =~= before.push(want[j as int]));
            assert(want.take(j + 1) =~= want.take(j as int).push(want[j as int]));
        }
        j = j + 1;
    }
    assert(want.take(j as int) =~= want);
    out
}

/// Whether the constraints and signals that hang together with the
/// constraint at position `r` hold a cycle.
fn piece_is_cyclic(sets: &Vec<BTreeSet<usize>>, labels: &Vec<usize>, r: usize) -> (cyclic: bool)
    requires
        labels_components(set_views(sets@), labels@),
        r < sets@.len(),
    ensures
        cyclic == piece_has_cycle(set_views(sets@), r as int),
{
    let ghost family = set_views(sets@);
    let n = sets.len();
    let mut incidences: u128 = 0;
    let mut members: usize = 0;
    let mut signals: BTreeSet<usize> = BTreeSet::new();
    let mut j: usize = 0;
    while j < n
        invariant
            j <= n,
            n == sets@.len(),
            r < n,
            family == set_views(sets@),
            labels_components(family, labels@),
            incidences == piece_incidences(family, r as int, j as nat),
            incidences <= j * usize::MAX,
            members == piece_members(family, r as int, j as nat),
            members <= j,
            signals@ == component_signals(family, r as int, j as int),
        decreases n - j,
    {
        proof {
            lemma_same_label_connected(family, labels@, r as int, j as int);
        }
        let ghost signals_before = signals@;
        if labels[j] == labels[r] {
            let size = set_len(&sets[j]);
            assert(size == family[j as int].len());
            assert(incidences + size <= (j + 1) * usize::MAX) by (nonlinear_arith)
                requires
                    incidences <= j * usize::MAX,
                    size <= usize::MAX,
            ;
            assert((j + 1) * usize::MAX <= usize::MAX * usize::MAX) by (nonlinear_arith)
                requires
                    j + 1 <= usize::MAX,
            ;
            assert(usize::MAX * usize::MAX < u128::MAX) by (nonlinear_arith)
                requires
                    usize::MAX <= 0xffff_ffff_ffff_ffff,
                    u128::MAX == 0xffff_ffff_ffff_ffff_ffff_ffff_ffff_ffff,
            ;
            incidences = incidences + size as u128;
            members = members + 1;
            insert_all(&mut signals, &sets[j]);
        } else {
            assert(incidences <= (j + 1) * usize::MAX) by (nonlinear_arith)
                requires
                    incidences <= j * usize::MAX,
            ;
        }
        proof {
            assert forall|s: usize| signals@.contains(s) <==> component_signals(
                family,
                r as int,
                j + 1,
            ).contains(s) by {
                if component_signals(family, r as int, j + 1).contains(s) {
                    let k = choose|k: int|
                        0 <= k < j + 1 && connected(family, r as int, k) && (#[trigger] family[k]).contains(
                            s,
                        );
                    if k < j {
                        assert(component_signals(family, r as int, j as int).contains(s));
                    }
                }
                if signals_before.contains(s) {
                    let k = choose|k: int|
                        0 <= k < j && connected(family, r as int, k) && (#[trigger] family[k]).contains(
                            s,
                        );
                    assert(k < j + 1);
                }
                if labels@[j as int] == labels@[r as int] && sets@[j as int]@.contains(s) {
                    assert(family[j as int].contains(s));
                }
            }
            assert(signals@ =~= component_signals(family, r as int, j + 1));
        }
        j = j + 1;
    }
    let distinct = set_len(&signals);
    incidences >= members as u128 + distinct as u128
}

/// Whether constraints with a product form a cycle with their signals that
/// are still to be fixed.
fn find_unbreakable_cycle(sets: &Vec<BTreeSet<usize>>, reductions: &Vec<Constraint>) -> (r: bool)
    requires
        reductions@.len() == sets@.len(),
    ensures
        r == has_unbreakable_cycle(
            set_views(sets@),
            constraint_models(reductions@),
        ),
{
    let stiff = rigid_sets(sets, reductions);
    let ghost family = set_views(stiff@);
    let labels = label_components(&stiff);
    let n = stiff.len();
    let mut r: usize = 0;
    while r < n
        invariant
            r <= n,
            n == stiff@.len(),
            family == set_views(stiff@),
            family == rigid(set_views(sets@), constraint_models(reductions@)),
            labels_components(family, labels@),
            forall|k: int|
                0 <= k < r ==> !(is_representative(family, k) && #[trigger] piece_has_cycle(
                    family,
                    k,
                )),
        decreases n - r,
    {
        let is_first = labels[r] == r && !stiff[r].is_empty();
        proof {
            lemma_first_of_component(family, labels@, r as int);
            if stiff@[r as int]@.is_empty() {
                assert(forall|s: usize| !family[r as int].contains(s));
            } else {
                assert(!(family[r as int] =~= Set::empty()));
            }
            assert(is_first == is_representative(family, r as int));
        }
        if is_first && piece_is_cyclic(&stiff, &labels, r) {
            return true;
        }
        r = r + 1;
    }
    proof {
        assert forall|k: int| !(is_representative(family, k) && #[trigger] piece_has_cycle(
            family,
            k,
        )) by {
            if is_representative(family, k) {
                assert(0 <= k < n);
            }
        }
    }
    false
}

/// With labels that name the components, a position is the least of those
/// it is connected to exactly when it is its own label.
pub proof fn lemma_first_of_component(sets: Seq<Set<usize>>, labels: Seq<usize>, r: int)
    requires
        labels_components(sets, labels),
        0 <= r < sets.len(),
    ensures
        (labels[r] == r) <==> forall|j: int| #[trigger] connected(sets, r, j) ==> r <= j,
{
    lemma_connected_reflexive(sets, r);
    if labels[r] == r {
        assert forall|j: int| #[trigger] connected(sets, r, j) implies r <= j by {
            let path = choose|path: Seq<int>|
                crate::components::is_path(sets, path) && path[0] == r && #[trigger] path.last()
                    == j;
            assert(0 <= path[path.len() - 1] < sets.len());
            assert(labels[j] == labels[r]);
        }
    } else {
        assert(connected(sets, r, labels[r] as int));
    }
}

/// The polynomial system of the component that begins at position `r`: its
/// constraints, and of its signals still to be fixed those that others rely
/// on, as `is_relied_on` says and gives the reason for.
fn build_system(
    graph: &VerificationGraph,
    context: &InputDataContextView,
    reductions: &Vec<Constraint>,
    sets: &Vec<BTreeSet<usize>>,
    labels: &Vec<usize>,
    r: usize,
) -> (system: PolynomialSystemFixedSignal)
    requires
        set_views(sets@) == pending(graph@),
        labels_components(set_views(sets@), labels@),
        reductions@.len() == sets@.len(),
        forall|j: int| 0 <= j < reductions@.len() ==> (#[trigger] reductions@[j]).wf(),
        r < sets@.len(),
    ensures
        system.wf(),
        system@ == component_system(
            graph@,
            constraint_models(reductions@),
            context,
            r as int,
        ),
{
    let ghost family = set_views(sets@);
    let ghost reduced = constraint_models(reductions@);
    let n = sets.len();
    let mut constraints: Vec<Constraint> = Vec::new();
    let mut signals: BTreeSet<usize> = BTreeSet::new();
    let mut j: usize = 0;
    while j < n
        invariant
            j <= n,
            n == sets@.len(),
            r < n,
            family == set_views(sets@),
            reduced == constraint_models(reductions@),
            labels_components(family, labels@),
            reductions@.len() == n,
            forall|k: int| 0 <= k < reductions@.len() ==> (#[trigger] reductions@[k]).wf(),
            forall|k: int| 0 <= k < constraints@.len() ==> (#[trigger] constraints@[k]).wf(),
            constraint_models(constraints@) == component_constraints(
                family,
                reduced,
                r as int,
                j as nat,
            ),
            signals@ == component_signals(family, r as int, j as int),
        decreases n - j,
    {
        proof {
            lemma_same_label_connected(family, labels@, r as int, j as int);
        }
        let ghost signals_before = signals@;
        if labels[j] == labels[r] {
            let ghost before = constraint_models(constraints@);
            constraints.push(reductions[j].clone());
            assert(constraint_models(constraints@) =~= before.push(reduced[j as int]));
            insert_all(&mut signals, &sets[j]);
        }
        proof {
            assert forall|s: usize| signals@.contains(s) <==> component_signals(
                family,
                r as int,
                j + 1,
            ).contains(s) by {
                if component_signals(family, r as int, j + 1).contains(s) {
                    let k = choose|k: int|
                        0 <= k < j + 1 && connected(family, r as int, k) && (#[trigger] family[k]).contains(
                            s,
                        );
                    if k < j {
                        assert(component_signals(family, r as int, j as int).contains(s));
                    }
                }
                if signals_before.contains(s) {
                    let k = choose|k: int|
                        0 <= k < j && connected(family, r as int, k) && (#[trigger] family[k]).contains(
                            s,
                        );
                    assert(k < j + 1);
                }
                if labels@[j as int] == labels@[r as int] && sets@[j as int]@.contains(s) {
                    assert(family[j as int].contains(s));
                }
            }
            assert(signals@ =~= component_signals(family, r as int, j + 1));
        }
        j = j + 1;
    }
    let all = set_to_vec(&signals);
    let mut signals_to_fix: BTreeSet<usize> = BTreeSet::new();
    let mut i: usize = 0;
    while i < all.len()
        invariant
            i <= all@.len(),
            forall|s: usize|
                signals_to_fix@.contains(s) <==> exists|k: int|
                    0 <= k < i && all@[k] == s && is_relied_on(graph@.nodes, s),
        decreases all@.len() - i,
    {
        let signal = all[i];
        let relied_on = match graph.nodes.get(&signal) {
            Some(node) => match node {
                Node::OutputSignal => true,
                Node::SubComponentInputSignal(_) => true,
                _ => false,
            },
            None => false,
        };
        assert(relied_on == is_relied_on(graph@.nodes, signal));
        if relied_on {
            signals_to_fix.insert(signal);
        }
        i = i + 1;
    }
    let system = PolynomialSystemFixedSignal {
        constraints,
        signals_to_fix,
        template_name: context.tree_constraints.template_name.clone(),
        component_name: context.tree_constraints.component_name.clone(),
    };
    proof {
        let want = component_system(graph@, reduced, context, r as int);
        assert forall|s: usize| system@.signals_to_fix.contains(s)
            <==> want.signals_to_fix.contains(s) by {
            if want.signals_to_fix.contains(s) {
                assert(all@.to_set().contains(s));
                assert(all@.contains(s));
            }
            if exists|k: int| 0 <= k < all@.len() && all@[k] == s {
                assert(all@.contains(s));
                assert(all@.to_set().contains(s));
            }
        }
        assert(system@.signals_to_fix =~= want.signals_to_fix);
        assert(system@ =~= want);
    }
    system
}

impl VerificationGraph {
    /// The polynomial systems that what is left of the graph asks for.
    /// `reductions` holds, for each unsafe constraint of the graph, the
    /// constraint that stands for it in a system.
    ///
    /// There is one system for each connected component of active unsafe
    /// constraints that has something to fix, in the order of the first
    /// constraint of each. Where constraints with a product form a cycle
    /// with their signals, there is none.
    pub fn extract_polynomial_systems(
        &self,
        context: &InputDataContextView,
        reductions: &Vec<Constraint>,
    ) -> (r: Result<Vec<PolynomialSystemFixedSignal>, VerificationException>)
        requires
            reductions@.len() == self.unsafe_constraints@.len(),
            forall|j: int| 0 <= j < reductions@.len() ==> (#[trigger] reductions@[j]).wf(),
        ensures
            r is Ok <==> extraction(
                self@,
                constraint_models(reductions@),
                context,
            ) is Ok,
            r matches Ok(systems) ==> Ok::<Seq<PolynomialSystemModel>, VerificationException>(
                system_models(systems@),
            ) == extraction(self@, constraint_models(reductions@), context)
                && forall|i: int| 0 <= i < systems@.len() ==> (#[trigger] systems@[i]).wf(),
            r matches Err(exception) ==> Err::<Seq<PolynomialSystemModel>, VerificationException>(
                exception,
            ) == extraction(self@, constraint_models(reductions@), context),
    {
        let ghost g = self@;
        let ghost reduced = constraint_models(reductions@);
        let sets = pending_sets(self);
        let ghost family = set_views(sets@);
        assert(sets@.len() == family.len());
        if find_unbreakable_cycle(&sets, reductions) {
            return Err(VerificationException::NoUnsafeConstraintConnectedComponentWithoutCycles);
        }
        let labels = label_components(&sets);
        let n = sets.len();
        let mut systems: Vec<PolynomialSystemFixedSignal> = Vec::new();
        let mut r: usize = 0;
        while r < n
            invariant
                r <= n,
                n == sets@.len(),
                g == self@,
                family == set_views(sets@),
                family == pending(g),
                reduced == constraint_models(reductions@),
                labels_components(family, labels@),
                reductions@.len() == n,
                forall|j: int| 0 <= j < reductions@.len() ==> (#[trigger] reductions@[j]).wf(),
                forall|i: int| 0 <= i < systems@.len() ==> (#[trigger] systems@[i]).wf(),
                system_models(systems@) == component_systems(
                    g,
                    reduced,
                    context,
                    r as nat,
                ),
            decreases n - r,
        {
            let is_first = labels[r] == r && !sets[r].is_empty();
            proof {
                lemma_first_of_component(family, labels@, r as int);
                if sets@[r as int]@.is_empty() {
                    assert(forall|s: usize| !family[r as int].contains(s));
                } else {
                    assert(!(family[r as int] =~= Set::empty()));
                }
                assert(is_first == is_representative(family, r as int));
            }
            if is_first {
                let system = build_system(self, context, reductions, &sets, &labels, r);
                if !system.signals_to_fix.is_empty() {
                    proof {
                        assert(!(system@.signals_to_fix =~= Set::empty()));
                    }
                    let ghost before = system_models(systems@);
                    systems.push(system);
                    assert(system_models(systems@) =~= before.push(
                        system@,
                    ));
                } else {
                    assert(forall|s: usize| !system@.signals_to_fix.contains(s));
                }
            }
            r = r + 1;
        }
        Ok(systems)
    }
}

} // verus!
