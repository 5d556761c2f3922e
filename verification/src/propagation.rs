//! Propagation of fixed signals through the verification graph.
//!
//! A sweep applies three rules, each to the whole graph at once and in this
//! order. A safe assignment whose right-hand side is fixed fires: its
//! left-hand side becomes fixed and the edge inactive. A component below
//! whose inputs are all fixed is activated: its outputs become fixed. An
//! unsafe constraint with no signal left to fix is put aside; one with a
//! single signal left to fix, whose reduced form is linear with a coefficient
//! for that signal that is not zero, fixes the signal and is put aside too.
//!
//! The reduced form of a constraint, the constraint after the substitutions
//! found so far, is the work of the constraint algebra and is handed in.

use crate::algebra::{constraint_models, term_coefficient, Constraint, ConstraintModel};
use crate::signal_set::{difference_to_vec, insert_all, is_subset, map_keys, strictly_increasing, vec_to_set};
use crate::verification_graph::{GraphModel, SafeAssignment, SafeAssignmentModel, SubComponent, SubComponentModel, UnsafeConstraint, UnsafeConstraintModel, VerificationGraph};
use std::collections::{BTreeMap, BTreeSet};
use vstd::prelude::*;

verus! {

/// The safe assignment fires: it is active and its right-hand side is fixed.
pub open spec fn fires(assignment: SafeAssignmentModel, fixed: Set<usize>) -> bool {
    assignment.active && assignment.rhs_signals.subset_of(fixed)
}

/// Some safe assignment that fires assigns `signal`.
pub open spec fn fired(safe: Seq<SafeAssignmentModel>, fixed: Set<usize>, signal: usize) -> bool {
    exists|i: int| 0 <= i < safe.len() && fires(#[trigger] safe[i], fixed) && safe[i].lhs_signal == signal
}

/// The assignment after the first rule.
pub open spec fn after_firing(
    assignment: SafeAssignmentModel,
    fixed: Set<usize>,
) -> SafeAssignmentModel {
    SafeAssignmentModel {
        lhs_signal: assignment.lhs_signal,
        rhs_signals: assignment.rhs_signals,
        associated_constraint: assignment.associated_constraint,
        active: assignment.active && !fires(assignment, fixed),
    }
}

/// The first rule: every safe assignment that can fire does.
pub open spec fn fire_safe_assignments(g: GraphModel) -> GraphModel {
    GraphModel {
        fixed_nodes: Set::new(
            |s: usize| g.fixed_nodes.contains(s) || fired(g.safe_assignments, g.fixed_nodes, s),
        ),
        safe_assignments: Seq::new(
            g.safe_assignments.len(),
            |i: int| after_firing(g.safe_assignments[i], g.fixed_nodes),
        ),
        ..g
    }
}

/// The component below is activated: its inputs are all fixed.
pub open spec fn activated(component: SubComponentModel, fixed: Set<usize>) -> bool {
    component.input_signals.subset_of(fixed)
}

/// `signal` is an output of some activated component below.
pub open spec fn activated_output(
    subcomponents: Map<usize, SubComponentModel>,
    fixed: Set<usize>,
    signal: usize,
) -> bool {
    exists|k: usize|
        subcomponents.contains_key(k) && activated(#[trigger] subcomponents[k], fixed)
            && subcomponents[k].output_signals.contains(signal)
}

/// The second rule: the outputs of every activated component are fixed.
pub open spec fn activate_subcomponents(g: GraphModel) -> GraphModel {
    GraphModel {
        fixed_nodes: Set::new(
            |s: usize|
                g.fixed_nodes.contains(s) || activated_output(g.subcomponents, g.fixed_nodes, s),
        ),
        ..g
    }
}

/// The unsafe constraint, reduced to `reduced`, fixes `signal`: it is
/// active, `signal` is the one signal of it that is not fixed, and the
/// reduced constraint is linear with a coefficient for `signal` that is not
/// zero.
pub open spec fn linearises(
    constraint: UnsafeConstraintModel,
    reduced: ConstraintModel,
    fixed: Set<usize>,
    signal: usize,
) -> bool {
    &&& constraint.active
    &&& constraint.signals.difference(fixed) =~= set![signal]
    &&& reduced.is_linear()
    &&& term_coefficient(reduced.c, signal) != 0
}

/// The unsafe constraint is done with: it is active, and either none of its
/// signals is left to fix or it fixes the one that is left.
pub open spec fn settles(
    constraint: UnsafeConstraintModel,
    reduced: ConstraintModel,
    fixed: Set<usize>,
) -> bool {
    &&& constraint.active
    &&& (constraint.signals.subset_of(fixed) || exists|s: usize|
        linearises(constraint, reduced, fixed, s))
}

/// Some unsafe constraint fixes `signal`.
pub open spec fn linearised(
    constraints: Seq<UnsafeConstraintModel>,
    reductions: Seq<ConstraintModel>,
    fixed: Set<usize>,
    signal: usize,
) -> bool {
    exists|j: int|
        0 <= j < constraints.len() && linearises(
            #[trigger] constraints[j],
            reductions[j],
            fixed,
            signal,
        )
}

/// The constraint after the third rule.
pub open spec fn after_settling(
    constraint: UnsafeConstraintModel,
    reduced: ConstraintModel,
    fixed: Set<usize>,
) -> UnsafeConstraintModel {
    UnsafeConstraintModel {
        signals: constraint.signals,
        associated_constraint: constraint.associated_constraint,
        active: constraint.active && !settles(constraint, reduced, fixed),
    }
}

/// The third rule: every unsafe constraint that can be done with is.
/// `reductions` holds, for each unsafe constraint, its reduced form.
pub open spec fn linearise_unsafe_constraints(
    g: GraphModel,
    reductions: Seq<ConstraintModel>,
) -> GraphModel {
    GraphModel {
        fixed_nodes: Set::new(
            |s: usize|
                g.fixed_nodes.contains(s) || linearised(
                    g.unsafe_constraints,
                    reductions,
                    g.fixed_nodes,
                    s,
                ),
        ),
        unsafe_constraints: Seq::new(
            g.unsafe_constraints.len(),
            |j: int| after_settling(g.unsafe_constraints[j], reductions[j], g.fixed_nodes),
        ),
        ..g
    }
}

/// The component with the inputs that are still to be fixed brought up to date.
pub open spec fn with_pending_inputs(
    component: SubComponentModel,
    fixed: Set<usize>,
) -> SubComponentModel {
    SubComponentModel {
        input_signals: component.input_signals,
        output_signals: component.output_signals,
        not_yet_fixed_inputs: component.input_signals.difference(fixed),
    }
}

/// Every component below with the inputs that are still to be fixed brought
/// up to date.
pub open spec fn refresh_subcomponents(g: GraphModel) -> GraphModel {
    GraphModel {
        subcomponents: Map::new(
            |k: usize| g.subcomponents.contains_key(k),
            |k: usize| with_pending_inputs(g.subcomponents[k], g.fixed_nodes),
        ),
        ..g
    }
}

/// One sweep: the three rules in order, then the bookkeeping of the
/// components below.
pub open spec fn sweep(g: GraphModel, reductions: Seq<ConstraintModel>) -> GraphModel {
    refresh_subcomponents(
        linearise_unsafe_constraints(activate_subcomponents(fire_safe_assignments(g)), reductions),
    )
}

/// The sweep from `before` to `after` fixed a signal or put an edge aside.
pub open spec fn made_progress(before: GraphModel, after: GraphModel) -> bool {
    ||| after.fixed_nodes != before.fixed_nodes
    ||| after.safe_assignments != before.safe_assignments
    ||| after.unsafe_constraints != before.unsafe_constraints
}

/// The number of active safe assignments.
pub open spec fn active_safe_assignments(safe: Seq<SafeAssignmentModel>) -> nat
    decreases safe.len(),
{
    if safe.len() == 0 {
        0
    } else {
        active_safe_assignments(safe.drop_last()) + if safe.last().active {
            1nat
        } else {
            0nat
        }
    }
}

/// The number of active unsafe constraints.
pub open spec fn active_unsafe_constraints(constraints: Seq<UnsafeConstraintModel>) -> nat
    decreases constraints.len(),
{
    if constraints.len() == 0 {
        0
    } else {
        active_unsafe_constraints(constraints.drop_last()) + if constraints.last().active {
            1nat
        } else {
            0nat
        }
    }
}

/// Putting safe assignments aside does not raise their count.
pub proof fn lemma_active_safe_assignments_monotone(
    before: Seq<SafeAssignmentModel>,
    after: Seq<SafeAssignmentModel>,
)
    requires
        before.len() == after.len(),
        forall|i: int| 0 <= i < after.len() ==> (#[trigger] after[i]).active ==> before[i].active,
    ensures
        active_safe_assignments(after) <= active_safe_assignments(before),
    decreases before.len(),
{
    if before.len() > 0 {
        assert(after.last().active ==> before.last().active);
        assert forall|i: int|
            0 <= i < after.drop_last().len() && (#[trigger] after.drop_last()[i]).active implies before.drop_last()[i].active by {
            assert(after[i].active ==> before[i].active);
        }
        lemma_active_safe_assignments_monotone(before.drop_last(), after.drop_last());
    }
}

/// Putting unsafe constraints aside does not raise their count.
pub proof fn lemma_active_unsafe_constraints_monotone(
    before: Seq<UnsafeConstraintModel>,
    after: Seq<UnsafeConstraintModel>,
)
    requires
        before.len() == after.len(),
        forall|i: int| 0 <= i < after.len() ==> (#[trigger] after[i]).active ==> before[i].active,
    ensures
        active_unsafe_constraints(after) <= active_unsafe_constraints(before),
    decreases before.len(),
{
    if before.len() > 0 {
        assert(after.last().active ==> before.last().active);
        assert forall|i: int|
            0 <= i < after.drop_last().len() && (#[trigger] after.drop_last()[i]).active implies before.drop_last()[i].active by {
            assert(after[i].active ==> before[i].active);
        }
        lemma_active_unsafe_constraints_monotone(before.drop_last(), after.drop_last());
    }
}

/// A sweep never unfixes a signal and never brings an edge back: the fixed
/// signals only grow, an edge that is active afterwards was active before,
/// and the number of active edges does not rise.
pub proof fn lemma_sweep_monotone(g: GraphModel, reductions: Seq<ConstraintModel>)
    ensures
        g.fixed_nodes.subset_of(sweep(g, reductions).fixed_nodes),
        sweep(g, reductions).safe_assignments.len() == g.safe_assignments.len(),
        sweep(g, reductions).unsafe_constraints.len() == g.unsafe_constraints.len(),
        forall|i: int|
            0 <= i < g.safe_assignments.len() ==> (#[trigger] sweep(
                g,
                reductions,
            ).safe_assignments[i]).active ==> g.safe_assignments[i].active,
        forall|j: int|
            0 <= j < g.unsafe_constraints.len() ==> (#[trigger] sweep(
                g,
                reductions,
            ).unsafe_constraints[j]).active ==> g.unsafe_constraints[j].active,
        active_safe_assignments(sweep(g, reductions).safe_assignments) <= active_safe_assignments(
            g.safe_assignments,
        ),
        active_unsafe_constraints(sweep(g, reductions).unsafe_constraints)
            <= active_unsafe_constraints(g.unsafe_constraints),
{
    let after = sweep(g, reductions);
    lemma_active_safe_assignments_monotone(g.safe_assignments, after.safe_assignments);
    lemma_active_unsafe_constraints_monotone(g.unsafe_constraints, after.unsafe_constraints);
}

/// A sweep that makes no progress has reached a fixpoint: one more sweep
/// leaves the graph as it is.
pub proof fn lemma_sweep_idempotent(g: GraphModel, reductions: Seq<ConstraintModel>)
    requires
        !made_progress(g, sweep(g, reductions)),
    ensures
        sweep(sweep(g, reductions), reductions) == sweep(g, reductions),
{
    let once = sweep(g, reductions);
    let twice = sweep(once, reductions);
    let g1 = fire_safe_assignments(g);
    let g2 = activate_subcomponents(g1);
    let g3 = linearise_unsafe_constraints(g2, reductions);
    assert(once.fixed_nodes == g3.fixed_nodes);
    assert(g.fixed_nodes.subset_of(g1.fixed_nodes));
    assert(g1.fixed_nodes.subset_of(g2.fixed_nodes));
    assert(g2.fixed_nodes.subset_of(g3.fixed_nodes));
    assert(g1.fixed_nodes =~= g.fixed_nodes);
    assert(g2.fixed_nodes =~= g.fixed_nodes);

    let h1 = fire_safe_assignments(once);
    assert forall|i: int| 0 <= i < g.safe_assignments.len() implies !fires(
        #[trigger] g.safe_assignments[i],
        g.fixed_nodes,
    ) by {
        assert(once.safe_assignments[i] == g.safe_assignments[i]);
    }
    assert(h1.safe_assignments =~= once.safe_assignments);
    assert(h1.fixed_nodes =~= once.fixed_nodes);
    assert(h1 == once);

    let h2 = activate_subcomponents(h1);
    assert forall|s: usize|
        activated_output(once.subcomponents, once.fixed_nodes, s) implies once.fixed_nodes.contains(
        s,
    ) by {
        let k = choose|k: usize|
            once.subcomponents.contains_key(k) && activated(
                #[trigger] once.subcomponents[k],
                once.fixed_nodes,
            ) && once.subcomponents[k].output_signals.contains(s);
        assert(g1.subcomponents.contains_key(k));
        assert(activated(g1.subcomponents[k], g1.fixed_nodes));
        assert(activated_output(g1.subcomponents, g1.fixed_nodes, s));
        assert(g2.fixed_nodes.contains(s));
    }
    assert(h2.fixed_nodes =~= once.fixed_nodes);
    assert(h2 == once);

    let h3 = linearise_unsafe_constraints(h2, reductions);
    assert forall|j: int| 0 <= j < g.unsafe_constraints.len() implies !settles(
        #[trigger] g.unsafe_constraints[j],
        reductions[j],
        g.fixed_nodes,
    ) by {
        assert(once.unsafe_constraints[j] == g.unsafe_constraints[j]);
        assert(g3.unsafe_constraints[j] == after_settling(
            g2.unsafe_constraints[j],
            reductions[j],
            g2.fixed_nodes,
        ));
    }
    assert(h3.unsafe_constraints =~= once.unsafe_constraints);
    assert forall|s: usize|
        linearised(once.unsafe_constraints, reductions, once.fixed_nodes, s) implies false by {
        let j = choose|j: int|
            0 <= j < once.unsafe_constraints.len() && linearises(
                #[trigger] once.unsafe_constraints[j],
                reductions[j],
                once.fixed_nodes,
                s,
            );
        assert(settles(g.unsafe_constraints[j], reductions[j], g.fixed_nodes));
    }
    assert(h3.fixed_nodes =~= once.fixed_nodes);
    assert(h3 == once);
    assert(refresh_subcomponents(once).subcomponents =~= once.subcomponents);
    assert(twice == once);
}

/// A safe assignment that fires has its left-hand side fixed and is
/// inactive after the sweep. After a sweep that made no progress, every
/// active safe assignment has a signal on its right-hand side that is not
/// fixed.
pub proof fn lemma_safe_assignment_soundness(g: GraphModel, reductions: Seq<ConstraintModel>)
    ensures
        forall|i: int|
            0 <= i < g.safe_assignments.len() && fires(#[trigger] g.safe_assignments[i], g.fixed_nodes)
                ==> sweep(g, reductions).fixed_nodes.contains(g.safe_assignments[i].lhs_signal)
                && !sweep(g, reductions).safe_assignments[i].active,
        !made_progress(g, sweep(g, reductions)) ==> forall|i: int|
            0 <= i < g.safe_assignments.len() && (#[trigger] sweep(
                g,
                reductions,
            ).safe_assignments[i]).active ==> exists|s: usize|
                sweep(g, reductions).safe_assignments[i].rhs_signals.contains(s) && !sweep(
                    g,
                    reductions,
                ).fixed_nodes.contains(s),
{
    let after = sweep(g, reductions);
    let g1 = fire_safe_assignments(g);
    assert forall|i: int|
        0 <= i < g.safe_assignments.len() && fires(
            #[trigger] g.safe_assignments[i],
            g.fixed_nodes,
        ) implies after.fixed_nodes.contains(g.safe_assignments[i].lhs_signal)
        && !after.safe_assignments[i].active by {
        assert(fired(g.safe_assignments, g.fixed_nodes, g.safe_assignments[i].lhs_signal));
        assert(g1.fixed_nodes.contains(g.safe_assignments[i].lhs_signal));
    }
    if !made_progress(g, after) {
        assert forall|i: int|
            0 <= i < g.safe_assignments.len() && (#[trigger] after.safe_assignments[i]).active implies exists|
            s: usize,
        |
            after.safe_assignments[i].rhs_signals.contains(s) && !after.fixed_nodes.contains(s) by {
            let a = g.safe_assignments[i];
            assert(after.safe_assignments[i] == a);
            assert(!fires(a, g.fixed_nodes));
            assert(!a.rhs_signals.subset_of(g.fixed_nodes));
            let s = choose|s: usize| a.rhs_signals.contains(s) && !g.fixed_nodes.contains(s);
            assert(after.fixed_nodes == g.fixed_nodes);
        }
    }
}

/// After a sweep that made no progress, every active unsafe constraint has
/// a signal that is not fixed, and none of them fixes a signal.
pub proof fn lemma_unsafe_constraints_at_rest(g: GraphModel, reductions: Seq<ConstraintModel>)
    requires
        !made_progress(g, sweep(g, reductions)),
    ensures
        forall|j: int|
            0 <= j < g.unsafe_constraints.len() && (#[trigger] sweep(
                g,
                reductions,
            ).unsafe_constraints[j]).active ==> {
                let after = sweep(g, reductions);
                &&& exists|s: usize|
                    after.unsafe_constraints[j].signals.contains(s) && !after.fixed_nodes.contains(
                        s,
                    )
                &&& forall|s: usize|
                    !linearises(after.unsafe_constraints[j], reductions[j], after.fixed_nodes, s)
            },
{
    let after = sweep(g, reductions);
    let g1 = fire_safe_assignments(g);
    let g2 = activate_subcomponents(g1);
    assert(g.fixed_nodes.subset_of(g1.fixed_nodes));
    assert(g1.fixed_nodes.subset_of(g2.fixed_nodes));
    assert(g2.fixed_nodes.subset_of(after.fixed_nodes));
    assert(g2.fixed_nodes =~= g.fixed_nodes);
    assert forall|j: int|
        0 <= j < g.unsafe_constraints.len() && (#[trigger] after.unsafe_constraints[j]).active implies {
        &&& exists|s: usize|
            after.unsafe_constraints[j].signals.contains(s) && !after.fixed_nodes.contains(s)
        &&& forall|s: usize|
            !linearises(after.unsafe_constraints[j], reductions[j], after.fixed_nodes, s)
    } by {
        let c = g.unsafe_constraints[j];
        assert(after.unsafe_constraints[j] == c);
        assert(!settles(c, reductions[j], g2.fixed_nodes));
        assert(!c.signals.subset_of(g.fixed_nodes));
        let s = choose|s: usize| c.signals.contains(s) && !g.fixed_nodes.contains(s);
        assert(after.fixed_nodes == g.fixed_nodes);
    }
}

/// What a sweep did.
pub struct SweepOutcome {
    /// Whether a signal was fixed or an edge put aside.
    pub progress: bool,
    /// The unsafe constraints that fixed a signal, each with that signal,
    /// in ascending order.
    pub linearised: Vec<(usize, usize)>,
}

/// The views of the safe assignments.
pub open spec fn safe_models(safe: Seq<SafeAssignment>) -> Seq<SafeAssignmentModel> {
    safe.map_values(|a: SafeAssignment| a@)
}

/// The views of the unsafe constraints.
pub open spec fn unsafe_models(constraints: Seq<UnsafeConstraint>) -> Seq<UnsafeConstraintModel> {
    constraints.map_values(|c: UnsafeConstraint| c@)
}

/// The views of the components below.
pub open spec fn subcomponent_models(
    subcomponents: Map<usize, SubComponent>,
) -> Map<usize, SubComponentModel> {
    subcomponents.map_values(|c: SubComponent| c@)
}

/// The first rule on the list of safe assignments. Returns whether any fired.
fn fire_phase(safe: &mut Vec<SafeAssignment>, fixed: &mut BTreeSet<usize>) -> (progress: bool)
    ensures
        safe_models(final(safe)@) == Seq::new(
            old(safe)@.len(),
            |i: int| after_firing(safe_models(old(safe)@)[i], old(fixed)@),
        ),
        final(fixed)@ == Set::new(
            |s: usize| old(fixed)@.contains(s) || fired(safe_models(old(safe)@), old(fixed)@, s),
        ),
        progress == exists|i: int|
            0 <= i < old(safe)@.len() && fires(#[trigger] safe_models(old(safe)@)[i], old(fixed)@),
{
    let ghost before = safe_models(safe@);
    let ghost fixed_before = fixed@;
    let mut newly: BTreeSet<usize> = BTreeSet::new();
    let mut progress = false;
    let mut i: usize = 0;
    while i < safe.len()
        invariant
            i <= safe@.len(),
            safe@.len() == before.len(),
            fixed@ == fixed_before,
            forall|k: int|
                0 <= k < i ==> (#[trigger] safe@[k])@ == after_firing(before[k], fixed_before),
            forall|k: int| i <= k < safe@.len() ==> (#[trigger] safe@[k])@ == before[k],
            forall|s: usize|
                newly@.contains(s) <==> exists|k: int|
                    0 <= k < i && fires(#[trigger] before[k], fixed_before) && before[k].lhs_signal
                        == s,
            progress == exists|k: int| 0 <= k < i && fires(#[trigger] before[k], fixed_before),
        decreases safe@.len() - i,
    {
        let ghost here = before[i as int];
        assert(safe@[i as int]@ == here);
        if safe[i].active && is_subset(&safe[i].rhs_signals, fixed) {
            assert(fires(here, fixed_before));
            newly.insert(safe[i].lhs_signal);
            safe[i].active = false;
            progress = true;
        } else {
            assert(!fires(here, fixed_before));
        }
        proof {
            assert forall|s: usize| newly@.contains(s) <==> exists|k: int|
                0 <= k < i + 1 && fires(#[trigger] before[k], fixed_before) && before[k].lhs_signal
                    == s by {
                if exists|k: int|
                    0 <= k < i + 1 && fires(#[trigger] before[k], fixed_before)
                        && before[k].lhs_signal == s {
                    let k = choose|k: int|
                        0 <= k < i + 1 && fires(#[trigger] before[k], fixed_before)
                            && before[k].lhs_signal == s;
                    if k < i {
                    }
                }
            }
            if exists|k: int| 0 <= k < i + 1 && fires(#[trigger] before[k], fixed_before) {
                let k = choose|k: int| 0 <= k < i + 1 && fires(#[trigger] before[k], fixed_before);
                if k < i {
                }
            }
        }
        i = i + 1;
    }
    insert_all(fixed, &newly);
    proof {
        assert(safe_models(safe@) =~= Seq::new(
            before.len(),
            |i: int| after_firing(before[i], fixed_before),
        ));
        assert(fixed@ =~= Set::new(
            |s: usize| fixed_before.contains(s) || fired(before, fixed_before, s),
        ));
    }
    progress
}

/// The second rule on the components below. Returns whether a signal was fixed.
fn activation_phase(subcomponents: &BTreeMap<usize, SubComponent>, fixed: &mut BTreeSet<usize>) -> (progress:
    bool)
    ensures
        final(fixed)@ == Set::new(
            |s: usize|
                old(fixed)@.contains(s) || activated_output(
                    subcomponent_models(subcomponents@),
                    old(fixed)@,
                    s,
                ),
        ),
        progress == (final(fixed)@ != old(fixed)@),
{
    let ghost models = subcomponent_models(subcomponents@);
    let ghost fixed_before = fixed@;
    let keys = map_keys(subcomponents);
    let mut newly: BTreeSet<usize> = BTreeSet::new();
    let mut i: usize = 0;
    while i < keys.len()
        invariant
            i <= keys@.len(),
            keys@.to_set() == subcomponents@.dom(),
            models == subcomponent_models(subcomponents@),
            fixed@ == fixed_before,
            forall|s: usize|
                newly@.contains(s) <==> exists|m: int|
                    0 <= m < i && activated(models[#[trigger] keys@[m]], fixed_before)
                        && models[keys@[m]].output_signals.contains(s),
        decreases keys@.len() - i,
    {
        let key = keys[i];
        assert(keys@.contains(key));
        assert(subcomponents@.dom().contains(key));
        let component = subcomponents.get(&key).unwrap();
        assert(component@ == models[key]);
        let ghost newly_before = newly@;
        if is_subset(&component.input_signals, fixed) {
            insert_all(&mut newly, &component.output_signals);
        }
        proof {
            assert forall|s: usize| newly@.contains(s) <==> exists|m: int|
                0 <= m < i + 1 && activated(models[#[trigger] keys@[m]], fixed_before)
                    && models[keys@[m]].output_signals.contains(s) by {
                if exists|m: int|
                    0 <= m < i + 1 && activated(models[#[trigger] keys@[m]], fixed_before)
                        && models[keys@[m]].output_signals.contains(s) {
                    let m = choose|m: int|
                        0 <= m < i + 1 && activated(models[#[trigger] keys@[m]], fixed_before)
                            && models[keys@[m]].output_signals.contains(s);
                    if m < i {
                        assert(newly_before.contains(s));
                    }
                }
                if newly_before.contains(s) {
                    let m = choose|m: int|
                        0 <= m < i && activated(models[#[trigger] keys@[m]], fixed_before)
                            && models[keys@[m]].output_signals.contains(s);
                    assert(m < i + 1);
                }
            }
        }
        i = i + 1;
    }
    let fresh = difference_to_vec(&newly, fixed);
    insert_all(fixed, &newly);
    proof {
        let want = Set::new(
            |s: usize| fixed_before.contains(s) || activated_output(models, fixed_before, s),
        );
        assert forall|s: usize| newly@.contains(s) <==> activated_output(
            models,
            fixed_before,
            s,
        ) by {
            if newly@.contains(s) {
                let m = choose|m: int|
                    0 <= m < keys@.len() && activated(models[#[trigger] keys@[m]], fixed_before)
                        && models[keys@[m]].output_signals.contains(s);
                assert(keys@.contains(keys@[m]));
                assert(models.contains_key(keys@[m]));
            }
            if activated_output(models, fixed_before, s) {
                let k = choose|k: usize|
                    models.contains_key(k) && activated(#[trigger] models[k], fixed_before)
                        && models[k].output_signals.contains(s);
                assert(subcomponents@.dom().contains(k));
                assert(keys@.contains(k));
                let m = choose|m: int| 0 <= m < keys@.len() && keys@[m] == k;
                assert(activated(models[keys@[m]], fixed_before));
            }
        }
        assert(fixed@ =~= want);
        if fresh@.len() > 0 {
            assert(fresh@.contains(fresh@[0]));
            assert(fresh@.to_set().contains(fresh@[0]));
            assert(fixed@.contains(fresh@[0]) && !fixed_before.contains(fresh@[0]));
        } else {
            assert forall|s: usize| fixed@.contains(s) implies fixed_before.contains(s) by {
                if newly@.contains(s) && !fixed_before.contains(s) {
                    assert(fresh@.to_set().contains(s));
                    assert(fresh@.contains(s));
                }
            }
            assert(fixed@ =~= fixed_before);
        }
    }
    fresh.len() > 0
}

/// The third rule on the list of unsafe constraints. Returns whether any was
/// put aside, and those that fixed a signal.
fn linearise_phase(
    constraints: &mut Vec<UnsafeConstraint>,
    reductions: &Vec<Constraint>,
    fixed: &mut BTreeSet<usize>,
) -> (r: (bool, Vec<(usize, usize)>))
    requires
        reductions@.len() == old(constraints)@.len(),
        forall|j: int| 0 <= j < reductions@.len() ==> (#[trigger] reductions@[j]).wf(),
    ensures
        unsafe_models(final(constraints)@) == Seq::new(
            old(constraints)@.len(),
            |j: int|
                after_settling(
                    unsafe_models(old(constraints)@)[j],
                    constraint_models(reductions@)[j],
                    old(fixed)@,
                ),
        ),
        final(fixed)@ == Set::new(
            |s: usize|
                old(fixed)@.contains(s) || linearised(
                    unsafe_models(old(constraints)@),
                    constraint_models(reductions@),
                    old(fixed)@,
                    s,
                ),
        ),
        r.0 == exists|j: int|
            0 <= j < old(constraints)@.len() && settles(
                #[trigger] unsafe_models(old(constraints)@)[j],
                constraint_models(reductions@)[j],
                old(fixed)@,
            ),
        lists_linearised(
            r.1@,
            unsafe_models(old(constraints)@),
            constraint_models(reductions@),
            old(fixed)@,
        ),
{
    let ghost before = unsafe_models(constraints@);
    let ghost reduced = constraint_models(reductions@);
    let ghost fixed_before = fixed@;
    let mut newly: BTreeSet<usize> = BTreeSet::new();
    let mut list: Vec<(usize, usize)> = Vec::new();
    let mut progress = false;
    let mut j: usize = 0;
    while j < constraints.len()
        invariant
            j <= constraints@.len(),
            constraints@.len() == before.len(),
            reductions@.len() == before.len(),
            reduced == constraint_models(reductions@),
            forall|k: int| 0 <= k < reductions@.len() ==> (#[trigger] reductions@[k]).wf(),
            fixed@ == fixed_before,
            forall|k: int|
                0 <= k < j ==> (#[trigger] constraints@[k])@ == after_settling(
                    before[k],
                    reduced[k],
                    fixed_before,
                ),
            forall|k: int| j <= k < constraints@.len() ==> (#[trigger] constraints@[k])@ == before[k],
            forall|s: usize|
                newly@.contains(s) <==> exists|k: int|
                    0 <= k < j && linearises(#[trigger] before[k], reduced[k], fixed_before, s),
            progress == exists|k: int|
                0 <= k < j && settles(#[trigger] before[k], reduced[k], fixed_before),
            forall|m: int|
                0 <= m < list@.len() ==> (#[trigger] list@[m]).0 < j && linearises(
                    before[list@[m].0 as int],
                    reduced[list@[m].0 as int],
                    fixed_before,
                    list@[m].1,
                ),
            forall|m: int, n: int| 0 <= m < n < list@.len() ==> list@[m].0 < list@[n].0,
            forall|k: int, s: usize|
                0 <= k < j && #[trigger] linearises(before[k], reduced[k], fixed_before, s)
                    ==> list@.contains((k as usize, s)),
        decreases constraints@.len() - j,
    {
        let ghost here = before[j as int];
        let ghost form = reduced[j as int];
        let ghost list_before = list@;
        let ghost newly_before = newly@;
        assert(constraints@[j as int]@ == here);
        assert(reductions@[j as int]@ == form);
        let mut settled = false;
        let mut found: Option<usize> = None;
        if constraints[j].active {
            let remaining = difference_to_vec(&constraints[j].signals, fixed);
            proof {
                assert forall|s: usize| #[trigger]
                    linearises(here, form, fixed_before, s) implies remaining@.len() == 1
                    && remaining@[0] == s by {
                    assert(here.signals.difference(fixed_before).contains(s));
                    assert(remaining@.to_set().contains(s));
                    assert(remaining@.contains(s));
                    if remaining@.len() > 1 {
                        assert(remaining@.to_set().contains(remaining@[0]));
                        assert(remaining@.to_set().contains(remaining@[1]));
                        assert(remaining@[0] < remaining@[1]);
                    }
                }
            }
            if remaining.len() == 0 {
                proof {
                    assert forall|s: usize| here.signals.contains(s) implies fixed_before.contains(
                        s,
                    ) by {
                        if !fixed_before.contains(s) {
                            assert(remaining@.to_set().contains(s));
                            assert(remaining@.contains(s));
                        }
                    }
                }
                settled = true;
            } else {
                proof {
                    assert(remaining@.contains(remaining@[0]));
                    assert(remaining@.to_set().contains(remaining@[0]));
                    assert(!here.signals.subset_of(fixed_before));
                }
                if remaining.len() == 1 {
                    let signal = remaining[0];
                    proof {
                        assert(here.signals.difference(fixed_before) =~= set![signal]) by {
                            assert forall|s: usize|
                                remaining@.to_set().contains(s) implies s == signal by {
                                assert(remaining@.contains(s));
                            }
                        }
                        reductions@[j as int].lemma_wf_ordered();
                    }
                    if reductions[j].is_linear() {
                        match reductions[j].c().get(signal) {
                            Some(coefficient) => {
                                if !coefficient.is_zero() {
                                    settled = true;
                                    found = Some(signal);
                                }
                            },
                            None => {
                                proof {
                                    crate::algebra::lemma_absent_coefficient(form.c, signal);
                                }
                            },
                        }
                    }
                }
            }
        }
        proof {
            assert(forall|s: usize| #[trigger]
                linearises(here, form, fixed_before, s) <==> found == Some(s));
            if found is Some {
                assert(linearises(here, form, fixed_before, found->0));
            }
            assert(settled == settles(here, form, fixed_before));
        }
        if settled {
            constraints[j].active = false;
            progress = true;
        }
        match found {
            Some(signal) => {
                newly.insert(signal);
                list.push((j, signal));
            },
            None => {},
        }
        proof {
            assert forall|s: usize| newly@.contains(s) <==> exists|k: int|
                0 <= k < j + 1 && linearises(#[trigger] before[k], reduced[k], fixed_before, s) by {
                if exists|k: int|
                    0 <= k < j + 1 && linearises(#[trigger] before[k], reduced[k], fixed_before, s) {
                    let k = choose|k: int|
                        0 <= k < j + 1 && linearises(
                            #[trigger] before[k],
                            reduced[k],
                            fixed_before,
                            s,
                        );
                    if k < j {
                        assert(newly_before.contains(s));
                    }
                }
                if newly_before.contains(s) {
                    let k = choose|k: int|
                        0 <= k < j && linearises(#[trigger] before[k], reduced[k], fixed_before, s);
                    assert(k < j + 1);
                }
            }
            if exists|k: int|
                0 <= k < j + 1 && settles(#[trigger] before[k], reduced[k], fixed_before) {
                let k = choose|k: int|
                    0 <= k < j + 1 && settles(#[trigger] before[k], reduced[k], fixed_before);
                if k < j {
                }
            }
            assert forall|m: int| 0 <= m < list@.len() implies (#[trigger] list@[m]).0 < j + 1
                && linearises(
                before[list@[m].0 as int],
                reduced[list@[m].0 as int],
                fixed_before,
                list@[m].1,
            ) by {
                if m < list_before.len() {
                    assert(list@[m] == list_before[m]);
                }
            }
            assert forall|m: int, n: int| 0 <= m < n < list@.len() implies list@[m].0
                < list@[n].0 by {
                if n < list_before.len() {
                    assert(list@[m] == list_before[m]);
                    assert(list@[n] == list_before[n]);
                } else {
                    assert(list@[m] == list_before[m]);
                }
            }
            assert forall|k: int, s: usize|
                0 <= k < j + 1 && #[trigger] linearises(
                    before[k],
                    reduced[k],
                    fixed_before,
                    s,
                ) implies list@.contains((k as usize, s)) by {
                if k < j {
                    assert(list_before.contains((k as usize, s)));
                    let m = choose|m: int|
                        0 <= m < list_before.len() && list_before[m] == (k as usize, s);
                    assert(list@[m] == (k as usize, s));
                } else {
                    assert(list@[list_before.len() as int] == (k as usize, s));
                }
            }
        }
        j = j + 1;
    }
    insert_all(fixed, &newly);
    proof {
        assert(unsafe_models(constraints@) =~= Seq::new(
            before.len(),
            |j: int| after_settling(before[j], reduced[j], fixed_before),
        ));
        assert(fixed@ =~= Set::new(
            |s: usize| fixed_before.contains(s) || linearised(before, reduced, fixed_before, s),
        ));
    }
    (progress, list)
}

/// Brings up to date, for every component below, the inputs still to be fixed.
fn refresh_phase(subcomponents: &mut BTreeMap<usize, SubComponent>, fixed: &BTreeSet<usize>)
    ensures
        subcomponent_models(final(subcomponents)@) == Map::new(
            |k: usize| subcomponent_models(old(subcomponents)@).contains_key(k),
            |k: usize| with_pending_inputs(subcomponent_models(old(subcomponents)@)[k], fixed@),
        ),
{
    let ghost before = subcomponent_models(subcomponents@);
    let keys = map_keys(subcomponents);
    let mut i: usize = 0;
    while i < keys.len()
        invariant
            i <= keys@.len(),
            strictly_increasing(keys@),
            keys@.to_set() == old(subcomponents)@.dom(),
            before == subcomponent_models(old(subcomponents)@),
            subcomponents@.dom() == old(subcomponents)@.dom(),
            forall|m: int|
                0 <= m < i ==> (#[trigger] subcomponents@[keys@[m]])@ == with_pending_inputs(
                    before[keys@[m]],
                    fixed@,
                ),
            forall|m: int|
                i <= m < keys@.len() ==> (#[trigger] subcomponents@[keys@[m]])@ == before[keys@[m]],
        decreases keys@.len() - i,
    {
        let key = keys[i];
        assert(keys@.contains(key));
        assert(old(subcomponents)@.dom().contains(key));
        let ghost map_before = subcomponents@;
        let component = subcomponents.get(&key).unwrap();
        assert(component@ == before[key]);
        let pending = difference_to_vec(&component.input_signals, fixed);
        let refreshed = SubComponent {
            input_signals: component.input_signals.clone(),
            output_signals: component.output_signals.clone(),
            not_yet_fixed_inputs: vec_to_set(&pending),
        };
        assert(refreshed@ =~= with_pending_inputs(before[key], fixed@));
        subcomponents.insert(key, refreshed);
        proof {
            assert(subcomponents@.dom() =~= old(subcomponents)@.dom());
            assert forall|m: int| 0 <= m < keys@.len() && m != i implies subcomponents@[keys@[m]]
                == map_before[keys@[m]] by {
                if m < i {
                    assert(keys@[m] < keys@[i as int]);
                } else {
                    assert(keys@[i as int] < keys@[m]);
                }
            }
        }
        i = i + 1;
    }
    proof {
        let want = Map::new(
            |k: usize| before.contains_key(k),
            |k: usize| with_pending_inputs(before[k], fixed@),
        );
        let got = subcomponent_models(subcomponents@);
        assert forall|k: usize| got.contains_key(k) implies got[k] == want[k] by {
            assert(keys@.to_set().contains(k));
            assert(keys@.contains(k));
            let m = choose|m: int| 0 <= m < keys@.len() && keys@[m] == k;
            assert(subcomponents@[keys@[m]]@ == with_pending_inputs(before[keys@[m]], fixed@));
        }
        assert(got =~~= want);
    }
}

/// The list names, in ascending order of constraint, exactly the unsafe
/// constraints that fix a signal, each with that signal.
pub open spec fn lists_linearised(
    list: Seq<(usize, usize)>,
    constraints: Seq<UnsafeConstraintModel>,
    reductions: Seq<ConstraintModel>,
    fixed: Set<usize>,
) -> bool {
    &&& forall|m: int|
        0 <= m < list.len() ==> (#[trigger] list[m]).0 < constraints.len() && linearises(
            constraints[list[m].0 as int],
            reductions[list[m].0 as int],
            fixed,
            list[m].1,
        )
    &&& forall|m: int, n: int| 0 <= m < n < list.len() ==> list[m].0 < list[n].0
    &&& forall|k: int, s: usize|
        0 <= k < constraints.len() && #[trigger] linearises(
            constraints[k],
            reductions[k],
            fixed,
            s,
        ) ==> list.contains((k as usize, s))
}

impl VerificationGraph {
    /// One sweep of propagation. `reductions` holds, for each unsafe
    /// constraint of the graph, the constraint it is made of after the
    /// substitutions found so far.
    ///
    /// The sweep only adds to the fixed signals and only puts edges aside.
    /// It reports whether it did either, and which unsafe constraints fixed
    /// which signal, so that the value found for the signal can be recorded.
    pub fn propagation_sweep(&mut self, reductions: &Vec<Constraint>) -> (outcome: SweepOutcome)
        requires
            reductions@.len() == old(self).unsafe_constraints@.len(),
            forall|j: int| 0 <= j < reductions@.len() ==> (#[trigger] reductions@[j]).wf(),
        ensures
            final(self)@ == sweep(old(self)@, constraint_models(reductions@)),
            outcome.progress == made_progress(old(self)@, final(self)@),
            lists_linearised(
                outcome.linearised@,
                old(self)@.unsafe_constraints,
                constraint_models(reductions@),
                activate_subcomponents(fire_safe_assignments(old(self)@)).fixed_nodes,
            ),
            old(self)@.fixed_nodes.subset_of(final(self)@.fixed_nodes),
            active_safe_assignments(final(self)@.safe_assignments) <= active_safe_assignments(
                old(self)@.safe_assignments,
            ),
            active_unsafe_constraints(final(self)@.unsafe_constraints) <= active_unsafe_constraints(
                old(self)@.unsafe_constraints,
            ),
    {
        let ghost g = self@;
        let ghost reduced = constraint_models(reductions@);
        let ghost g1 = fire_safe_assignments(g);
        let ghost g2 = activate_subcomponents(g1);
        let ghost g3 = linearise_unsafe_constraints(g2, reduced);

        let fired = fire_phase(&mut self.safe_assignments, &mut self.fixed_nodes);
        assert(self@ =~~= g1);
        let activated = activation_phase(&self.subcomponents, &mut self.fixed_nodes);
        assert(self@ =~~= g2);
        let (settled, list) = linearise_phase(
            &mut self.unsafe_constraints,
            reductions,
            &mut self.fixed_nodes,
        );
        assert(self@ =~~= g3);
        refresh_phase(&mut self.subcomponents, &self.fixed_nodes);
        assert(self@ =~~= sweep(g, reduced));

        proof {
            lemma_sweep_monotone(g, reduced);
            let after = sweep(g, reduced);
            if fired {
                let i = choose|i: int|
                    0 <= i < g.safe_assignments.len() && fires(
                        #[trigger] g.safe_assignments[i],
                        g.fixed_nodes,
                    );
                assert(after.safe_assignments[i] != g.safe_assignments[i]);
            } else {
                assert(g1.safe_assignments =~= g.safe_assignments);
                assert(g1.fixed_nodes =~= g.fixed_nodes);
            }
            if activated {
                assert(!(g2.fixed_nodes =~= g1.fixed_nodes));
                let s = choose|s: usize| g2.fixed_nodes.contains(s) != g1.fixed_nodes.contains(s);
                assert(after.fixed_nodes.contains(s) && !g.fixed_nodes.contains(s));
            }
            if settled {
                let j = choose|j: int|
                    0 <= j < g.unsafe_constraints.len() && settles(
                        #[trigger] g2.unsafe_constraints[j],
                        reduced[j],
                        g2.fixed_nodes,
                    );
                assert(after.unsafe_constraints[j] != g.unsafe_constraints[j]);
            } else {
                assert(g3.unsafe_constraints =~= g.unsafe_constraints);
                assert forall|s: usize|
                    linearised(g2.unsafe_constraints, reduced, g2.fixed_nodes, s) implies false by {
                    let j = choose|j: int|
                        0 <= j < g2.unsafe_constraints.len() && linearises(
                            #[trigger] g2.unsafe_constraints[j],
                            reduced[j],
                            g2.fixed_nodes,
                            s,
                        );
                    assert(settles(g2.unsafe_constraints[j], reduced[j], g2.fixed_nodes));
                }
                assert(g3.fixed_nodes =~= g2.fixed_nodes);
            }
        }
        SweepOutcome { progress: fired || activated || settled, linearised: list }
    }
}

/// The number of the given components below whose outputs are not all fixed.
pub open spec fn pending_subcomponents(
    subcomponents: Map<usize, SubComponentModel>,
    fixed: Set<usize>,
    keys: Seq<usize>,
) -> nat
    decreases keys.len(),
{
    if keys.len() == 0 {
        0
    } else {
        pending_subcomponents(subcomponents, fixed, keys.drop_last()) + if subcomponents[keys.last()].output_signals.subset_of(
            fixed,
        ) {
            0nat
        } else {
            1nat
        }
    }
}

/// What is left for propagation to do: the active edges and the components
/// below whose outputs are not all fixed. `keys` lists the components below.
pub open spec fn potential(g: GraphModel, keys: Seq<usize>) -> nat {
    active_safe_assignments(g.safe_assignments) + active_unsafe_constraints(g.unsafe_constraints)
        + pending_subcomponents(g.subcomponents, g.fixed_nodes, keys)
}

/// Putting a safe assignment aside lowers the number of active ones.
pub proof fn lemma_active_safe_assignments_strict(
    before: Seq<SafeAssignmentModel>,
    after: Seq<SafeAssignmentModel>,
    i: int,
)
    requires
        before.len() == after.len(),
        forall|k: int| 0 <= k < after.len() ==> (#[trigger] after[k]).active ==> before[k].active,
        0 <= i < before.len(),
        before[i].active,
        !after[i].active,
    ensures
        active_safe_assignments(after) < active_safe_assignments(before),
    decreases before.len(),
{
    assert forall|k: int|
        0 <= k < after.drop_last().len() && (#[trigger] after.drop_last()[k]).active implies before.drop_last()[k].active by {
        assert(after[k].active ==> before[k].active);
    }
    assert(after.last().active ==> before.last().active) by {
        assert(after[after.len() - 1].active ==> before[after.len() - 1].active);
    }
    if i == before.len() - 1 {
        lemma_active_safe_assignments_monotone(before.drop_last(), after.drop_last());
    } else {
        lemma_active_safe_assignments_strict(before.drop_last(), after.drop_last(), i);
    }
}

/// Putting an unsafe constraint aside lowers the number of active ones.
pub proof fn lemma_active_unsafe_constraints_strict(
    before: Seq<UnsafeConstraintModel>,
    after: Seq<UnsafeConstraintModel>,
    j: int,
)
    requires
        before.len() == after.len(),
        forall|k: int| 0 <= k < after.len() ==> (#[trigger] after[k]).active ==> before[k].active,
        0 <= j < before.len(),
        before[j].active,
        !after[j].active,
    ensures
        active_unsafe_constraints(after) < active_unsafe_constraints(before),
    decreases before.len(),
{
    assert forall|k: int|
        0 <= k < after.drop_last().len() && (#[trigger] after.drop_last()[k]).active implies before.drop_last()[k].active by {
        assert(after[k].active ==> before[k].active);
    }
    assert(after.last().active ==> before.last().active) by {
        assert(after[after.len() - 1].active ==> before[after.len() - 1].active);
    }
    if j == before.len() - 1 {
        lemma_active_unsafe_constraints_monotone(before.drop_last(), after.drop_last());
    } else {
        lemma_active_unsafe_constraints_strict(before.drop_last(), after.drop_last(), j);
    }
}

/// Fixing more signals does not raise the number of components below whose
/// outputs are not all fixed.
pub proof fn lemma_pending_subcomponents_monotone(
    subcomponents: Map<usize, SubComponentModel>,
    before: Set<usize>,
    after: Set<usize>,
    keys: Seq<usize>,
)
    requires
        before.subset_of(after),
    ensures
        pending_subcomponents(subcomponents, after, keys) <= pending_subcomponents(
            subcomponents,
            before,
            keys,
        ),
    decreases keys.len(),
{
    if keys.len() > 0 {
        lemma_pending_subcomponents_monotone(subcomponents, before, after, keys.drop_last());
    }
}

/// Fixing the last outputs of a component below lowers the number of
/// components whose outputs are not all fixed.
pub proof fn lemma_pending_subcomponents_strict(
    subcomponents: Map<usize, SubComponentModel>,
    before: Set<usize>,
    after: Set<usize>,
    keys: Seq<usize>,
    m: int,
)
    requires
        before.subset_of(after),
        0 <= m < keys.len(),
        !subcomponents[keys[m]].output_signals.subset_of(before),
        subcomponents[keys[m]].output_signals.subset_of(after),
    ensures
        pending_subcomponents(subcomponents, after, keys) < pending_subcomponents(
            subcomponents,
            before,
            keys,
        ),
    decreases keys.len(),
{
    if m == keys.len() - 1 {
        lemma_pending_subcomponents_monotone(subcomponents, before, after, keys.drop_last());
    } else {
        assert(keys.drop_last()[m] == keys[m]);
        lemma_pending_subcomponents_strict(subcomponents, before, after, keys.drop_last(), m);
    }
}

/// Propagation comes to rest: a sweep never raises what is left to do, and
/// a sweep that makes progress lowers it.
pub proof fn lemma_sweep_lowers_potential(
    g: GraphModel,
    reductions: Seq<ConstraintModel>,
    keys: Seq<usize>,
)
    requires
        forall|k: usize| g.subcomponents.contains_key(k) ==> keys.contains(k),
        forall|i: int| 0 <= i < keys.len() ==> g.subcomponents.contains_key(#[trigger] keys[i]),
    ensures
        potential(sweep(g, reductions), keys) <= potential(g, keys),
        made_progress(g, sweep(g, reductions)) ==> potential(sweep(g, reductions), keys)
            < potential(g, keys),
{
    let after = sweep(g, reductions);
    let g1 = fire_safe_assignments(g);
    let g2 = activate_subcomponents(g1);
    let g3 = linearise_unsafe_constraints(g2, reductions);
    lemma_sweep_monotone(g, reductions);
    assert(g.fixed_nodes.subset_of(g1.fixed_nodes));
    assert(g1.fixed_nodes.subset_of(g2.fixed_nodes));
    assert(g2.fixed_nodes.subset_of(g3.fixed_nodes));
    assert(after.fixed_nodes == g3.fixed_nodes);

    assert(pending_subcomponents(after.subcomponents, after.fixed_nodes, keys)
        == pending_subcomponents(g.subcomponents, after.fixed_nodes, keys)) by {
        lemma_pending_same_outputs(g.subcomponents, after.subcomponents, after.fixed_nodes, keys);
    }
    lemma_pending_subcomponents_monotone(g.subcomponents, g.fixed_nodes, after.fixed_nodes, keys);

    if made_progress(g, after) {
        if after.safe_assignments != g.safe_assignments {
            assert(!(after.safe_assignments =~= g.safe_assignments));
            let i = choose|i: int|
                0 <= i < g.safe_assignments.len() && after.safe_assignments[i]
                    != g.safe_assignments[i];
            lemma_active_safe_assignments_strict(g.safe_assignments, after.safe_assignments, i);
        } else if after.unsafe_constraints != g.unsafe_constraints {
            assert(!(after.unsafe_constraints =~= g.unsafe_constraints));
            let j = choose|j: int|
                0 <= j < g.unsafe_constraints.len() && after.unsafe_constraints[j]
                    != g.unsafe_constraints[j];
            lemma_active_unsafe_constraints_strict(
                g.unsafe_constraints,
                after.unsafe_constraints,
                j,
            );
        } else {
            assert(!(after.fixed_nodes =~= g.fixed_nodes));
            let s = choose|s: usize| after.fixed_nodes.contains(s) != g.fixed_nodes.contains(s);
            assert(after.fixed_nodes.contains(s) && !g.fixed_nodes.contains(s));
            assert forall|i: int| 0 <= i < g.safe_assignments.len() implies !fires(
                #[trigger] g.safe_assignments[i],
                g.fixed_nodes,
            ) by {
                assert(after.safe_assignments[i] == g.safe_assignments[i]);
            }
            assert(g1.fixed_nodes =~= g.fixed_nodes);
            assert forall|j: int| 0 <= j < g.unsafe_constraints.len() implies !settles(
                #[trigger] g2.unsafe_constraints[j],
                reductions[j],
                g2.fixed_nodes,
            ) by {
                assert(after.unsafe_constraints[j] == g.unsafe_constraints[j]);
            }
            assert forall|t: usize|
                linearised(g2.unsafe_constraints, reductions, g2.fixed_nodes, t) implies false by {
                let j = choose|j: int|
                    0 <= j < g2.unsafe_constraints.len() && linearises(
                        #[trigger] g2.unsafe_constraints[j],
                        reductions[j],
                        g2.fixed_nodes,
                        t,
                    );
                assert(settles(g2.unsafe_constraints[j], reductions[j], g2.fixed_nodes));
            }
            assert(g3.fixed_nodes =~= g2.fixed_nodes);
            assert(g2.fixed_nodes.contains(s));
            assert(activated_output(g1.subcomponents, g1.fixed_nodes, s));
            let k = choose|k: usize|
                g1.subcomponents.contains_key(k) && activated(
                    #[trigger] g1.subcomponents[k],
                    g1.fixed_nodes,
                ) && g1.subcomponents[k].output_signals.contains(s);
            assert(keys.contains(k));
            let m = choose|m: int| 0 <= m < keys.len() && keys[m] == k;
            assert forall|t: usize|
                g.subcomponents[k].output_signals.contains(t) implies after.fixed_nodes.contains(
                t,
            ) by {
                assert(activated_output(g1.subcomponents, g1.fixed_nodes, t));
                assert(g2.fixed_nodes.contains(t));
            }
            lemma_pending_subcomponents_strict(
                g.subcomponents,
                g.fixed_nodes,
                after.fixed_nodes,
                keys,
                m,
            );
        }
    }
}

/// The number of components whose outputs are not all fixed depends on
/// their outputs alone.
pub proof fn lemma_pending_same_outputs(
    first: Map<usize, SubComponentModel>,
    second: Map<usize, SubComponentModel>,
    fixed: Set<usize>,
    keys: Seq<usize>,
)
    requires
        forall|i: int|
            0 <= i < keys.len() ==> first[#[trigger] keys[i]].output_signals
                == second[keys[i]].output_signals,
    ensures
        pending_subcomponents(first, fixed, keys) == pending_subcomponents(second, fixed, keys),
    decreases keys.len(),
{
    if keys.len() > 0 {
        assert forall|i: int| 0 <= i < keys.drop_last().len() implies first[#[trigger] keys.drop_last()[i]].output_signals
            == second[keys.drop_last()[i]].output_signals by {
            assert(keys.drop_last()[i] == keys[i]);
        }
        lemma_pending_same_outputs(first, second, fixed, keys.drop_last());
        let last = keys[keys.len() - 1];
        assert(first[last].output_signals == second[last].output_signals);
    }
}

/// The graph after `count` sweeps with the same reduced constraints.
pub open spec fn sweeps(g: GraphModel, reductions: Seq<ConstraintModel>, count: nat) -> GraphModel
    decreases count,
{
    if count == 0 {
        g
    } else {
        sweep(sweeps(g, reductions, (count - 1) as nat), reductions)
    }
}

/// The sweep of the graph makes progress without an unsafe constraint
/// fixing a signal: another sweep with the same reduced constraints is due.
pub open spec fn sweeps_on(g: GraphModel, reductions: Seq<ConstraintModel>) -> bool {
    &&& made_progress(g, sweep(g, reductions))
    &&& lists_linearised(
        Seq::empty(),
        g.unsafe_constraints,
        reductions,
        activate_subcomponents(fire_safe_assignments(g)).fixed_nodes,
    )
}

/// Each of the first `n` sweeps from `start` called for another.
pub open spec fn swept_on(start: GraphModel, reductions: Seq<ConstraintModel>, n: nat) -> bool {
    forall|k: nat| k < n ==> sweeps_on(#[trigger] sweeps(start, reductions, k), reductions)
}

/// Propagation took the graph from `start` to `end` by way of `n` sweeps
/// that each called for another, and one more, on which it reports.
pub open spec fn propagation_holds(
    start: GraphModel,
    reduced: Seq<ConstraintModel>,
    n: nat,
    progress: bool,
    list: Seq<(usize, usize)>,
    end: GraphModel,
) -> bool {
    let before = sweeps(start, reduced, n);
    &&& swept_on(start, reduced, n)
    &&& end == sweep(before, reduced)
    &&& progress == made_progress(before, end)
    &&& lists_linearised(
        list,
        before.unsafe_constraints,
        reduced,
        activate_subcomponents(fire_safe_assignments(before)).fixed_nodes,
    )
}

impl VerificationGraph {
    /// Sweeps until a sweep makes no progress, or until a sweep has an
    /// unsafe constraint fix a signal, which calls for a substitution and
    /// with it for new reduced constraints. Reports on the last sweep.
    pub fn propagate(&mut self, reductions: &Vec<Constraint>) -> (outcome: SweepOutcome)
        requires
            reductions@.len() == old(self).unsafe_constraints@.len(),
            forall|j: int| 0 <= j < reductions@.len() ==> (#[trigger] reductions@[j]).wf(),
        ensures
            !outcome.progress || outcome.linearised@.len() > 0,
            exists|n: nat| #[trigger]
                propagation_holds(
                    old(self)@,
                    constraint_models(reductions@),
                    n,
                    outcome.progress,
                    outcome.linearised@,
                    final(self)@,
                ),
            final(self).unsafe_constraints@.len() == old(self).unsafe_constraints@.len(),
    {
        let keys = map_keys(&self.subcomponents);
        let ghost start = self@;
        let ghost reduced = constraint_models(reductions@);
        let ghost mut n: nat = 0;
        proof {
            assert forall|k: usize| self@.subcomponents.contains_key(k) implies keys@.contains(
                k,
            ) by {
                assert(self.subcomponents@.dom().contains(k));
                assert(keys@.to_set().contains(k));
            }
            assert forall|i: int| 0 <= i < keys@.len() implies self@.subcomponents.contains_key(
                #[trigger] keys@[i],
            ) by {
                assert(keys@.contains(keys@[i]));
                assert(keys@.to_set().contains(keys@[i]));
            }
        }
        loop
            invariant
                reduced == constraint_models(reductions@),
                reductions@.len() == self.unsafe_constraints@.len(),
                self.unsafe_constraints@.len() == old(self).unsafe_constraints@.len(),
                forall|j: int| 0 <= j < reductions@.len() ==> (#[trigger] reductions@[j]).wf(),
                self@ == sweeps(start, reduced, n),
                swept_on(start, reduced, n),
                start == old(self)@,
                forall|k: usize| self@.subcomponents.contains_key(k) ==> keys@.contains(k),
                forall|i: int|
                    0 <= i < keys@.len() ==> self@.subcomponents.contains_key(#[trigger] keys@[i]),
            decreases potential(self@, keys@),
        {
            let ghost before = self@;
            let outcome = self.propagation_sweep(reductions);
            proof {
                lemma_sweep_lowers_potential(before, reduced, keys@);
                assert(self@.subcomponents.dom() =~= before.subcomponents.dom());
                assert(self@.unsafe_constraints.len() == before.unsafe_constraints.len());
            }
            if !outcome.progress || outcome.linearised.len() > 0 {
                proof {
                    assert(before == sweeps(start, reduced, n));
                    assert(propagation_holds(
                        start,
                        reduced,
                        n,
                        outcome.progress,
                        outcome.linearised@,
                        self@,
                    ));
                }
                return outcome;
            }
            proof {
                assert(outcome.linearised@ =~= Seq::empty());
                assert(sweeps_on(before, reduced));
                n = n + 1;
            }
        }
    }
}

} // verus!
