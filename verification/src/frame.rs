//! The verdict on one component once propagation has come to rest.

use crate::algebra::{constraint_models, Constraint, ConstraintModel};
use crate::extraction::extraction;
use crate::input_data::InputDataContextView;
use crate::propagation::{
    activate_subcomponents, activated, fire_safe_assignments,
    lists_linearised, made_progress, propagation_holds, subcomponent_models, sweep, sweeps,
    swept_on, unsafe_models,
};
use crate::signal_set::{insert_all, is_subset, map_keys};
use crate::text::texts;
use crate::verdict::{
    system_models, ModuleUnsafeReason, PolynomialSystemFixedSignal, PolynomialSystemModel,
    SafetyConditions, SubComponentVerificationResult, SubComponentVerificationResultKind,
};
use crate::verification_graph::{
    GraphModel, Substitution, UnsafeConstraint, UnsafeConstraintModel, VerificationGraph,
};

use vstd::prelude::*;
use vstd::string::*;

verus! {

/// Some unsafe constraint is active.
pub open spec fn has_active_unsafe_constraint(g: GraphModel) -> bool {
    exists|j: int| 0 <= j < g.unsafe_constraints.len() && (#[trigger] g.unsafe_constraints[j]).active
}

/// The names of the outputs among the first `count` that are not fixed, in
/// ascending order of signal.
pub open spec fn unfixed_output_names(
    context: &InputDataContextView,
    fixed: Set<usize>,
    count: nat,
) -> Seq<Seq<char>>
    decreases count,
{
    if count == 0 {
        Seq::empty()
    } else {
        let before = unfixed_output_names(context, fixed, (count - 1) as nat);
        let signal = (context.tree_constraints.initial_signal + count - 1) as usize;
        if fixed.contains(signal) {
            before
        } else {
            before.push(context.signal_name_map@[signal]@)
        }
    }
}

/// Every output of the component has a name.
pub open spec fn outputs_named(context: &InputDataContextView) -> bool {
    forall|s: usize|
        context.tree_constraints.is_output(s) ==> #[trigger] context.signal_name_map@.contains_key(s)
}

/// The signals that some of the systems has to fix.
pub open spec fn signals_of_systems(systems: Seq<PolynomialSystemModel>) -> Set<usize> {
    Set::new(
        |s: usize|
            exists|i: int| 0 <= i < systems.len() && (#[trigger] systems[i]).signals_to_fix.contains(s),
    )
}

/// The unsafe constraint put aside.
pub open spec fn retired(constraint: UnsafeConstraintModel) -> UnsafeConstraintModel {
    UnsafeConstraintModel {
        signals: constraint.signals,
        associated_constraint: constraint.associated_constraint,
        active: false,
    }
}

/// The graph once the systems are taken to hold: what they have to fix is
/// fixed, and every unsafe constraint is put aside.
pub open spec fn with_systems_assumed(g: GraphModel, systems: Seq<PolynomialSystemModel>) -> GraphModel {
    GraphModel {
        fixed_nodes: g.fixed_nodes.union(signals_of_systems(systems)),
        unsafe_constraints: Seq::new(
            g.unsafe_constraints.len(),
            |j: int| retired(g.unsafe_constraints[j]),
        ),
        ..g
    }
}

/// Puts every unsafe constraint aside.
fn retire_all(constraints: &mut Vec<UnsafeConstraint>)
    ensures
        unsafe_models(final(constraints)@) == Seq::new(
            old(constraints)@.len(),
            |j: int| retired(unsafe_models(old(constraints)@)[j]),
        ),
{
    let ghost before = unsafe_models(constraints@);
    let mut j: usize = 0;
    while j < constraints.len()
        invariant
            j <= constraints@.len(),
            constraints@.len() == before.len(),
            forall|k: int| 0 <= k < j ==> (#[trigger] constraints@[k])@ == retired(before[k]),
            forall|k: int| j <= k < before.len() ==> (#[trigger] constraints@[k])@ == before[k],
        decreases constraints@.len() - j,
    {
        constraints[j].active = false;
        j = j + 1;
    }
    assert(unsafe_models(constraints@) =~= Seq::new(before.len(), |j: int| retired(before[j])));
}

impl VerificationGraph {
    /// Whether some unsafe constraint is active.
    pub fn has_active_unsafe_constraints(&self) -> (r: bool)
        ensures
            r == has_active_unsafe_constraint(self@),
    {
        let mut j: usize = 0;
        while j < self.unsafe_constraints.len()
            invariant
                j <= self.unsafe_constraints@.len(),
                forall|k: int| 0 <= k < j ==> !(#[trigger] self@.unsafe_constraints[k]).active,
            decreases self.unsafe_constraints@.len() - j,
        {
            if self.unsafe_constraints[j].active {
                assert(self@.unsafe_constraints[j as int].active);
                return true;
            }
            j = j + 1;
        }
        false
    }

    /// Appends a substitution to those found so far.
    pub fn record_substitution(&mut self, substitution: Substitution)
        ensures
            final(self)@ == (GraphModel {
                substitutions: old(self)@.substitutions.push(substitution@),
                ..old(self)@
            }),
    {
        self.substitutions.push(substitution);
        assert(self@.substitutions =~= old(self)@.substitutions.push(substitution@));
    }

    /// The components below whose inputs are all fixed, in ascending order.
    pub fn activated_subcomponents(&self) -> (r: Vec<usize>)
        ensures
            crate::signal_set::strictly_increasing(r@),
            forall|k: usize|
                r@.contains(k) <==> self@.subcomponents.contains_key(k) && activated(
                    #[trigger] self@.subcomponents[k],
                    self@.fixed_nodes,
                ),
    {
        let keys = map_keys(&self.subcomponents);
        let ghost models = subcomponent_models(self.subcomponents@);
        let mut r: Vec<usize> = Vec::new();
        let mut i: usize = 0;
        while i < keys.len()
            invariant
                i <= keys@.len(),
                keys@.to_set() == self.subcomponents@.dom(),
                crate::signal_set::strictly_increasing(keys@),
                crate::signal_set::strictly_increasing(r@),
                models == subcomponent_models(self.subcomponents@),
                forall|m: int| 0 <= m < r@.len() ==> exists|k: int| 0 <= k < i && keys@[k] == #[trigger] r@[m],
                forall|k: usize|
                    r@.contains(k) <==> exists|m: int|
                        0 <= m < i && keys@[m] == k && activated(models[k], self.fixed_nodes@),
            decreases keys@.len() - i,
        {
            let key = keys[i];
            assert(keys@.contains(key));
            assert(self.subcomponents@.dom().contains(key));
            let component = self.subcomponents.get(&key).unwrap();
            assert(component@ == models[key]);
            let ghost before = r@;
            if is_subset(&component.input_signals, &self.fixed_nodes) {
                r.push(key);
                proof {
                    assert forall|x: int, y: int| 0 <= x < y < r@.len() implies r@[x] < r@[y] by {
                        if y == before.len() {
                            let k = choose|k: int| 0 <= k < i && keys@[k] == before[x];
                            assert(keys@[k] < keys@[i as int]);
                        }
                    }
                    assert(r@[before.len() as int] == key);
                }
            }
            proof {
                assert forall|k: usize| r@.contains(k) <==> exists|m: int|
                    0 <= m < i + 1 && keys@[m] == k && activated(models[k], self.fixed_nodes@) by {
                    if r@.contains(k) {
                        let x = choose|x: int| 0 <= x < r@.len() && r@[x] == k;
                        if x < before.len() {
                            assert(before[x] == k);
                            assert(before.contains(k));
                        } else {
                            assert(keys@[i as int] == k);
                        }
                    }
                    if before.contains(k) {
                        let x = choose|x: int| 0 <= x < before.len() && before[x] == k;
                        assert(r@[x] == k);
                    }
                }
            }
            i = i + 1;
        }
        proof {
            assert forall|k: usize| r@.contains(k) <==> self@.subcomponents.contains_key(k)
                && activated(#[trigger] self@.subcomponents[k], self@.fixed_nodes) by {
                if self@.subcomponents.contains_key(k) {
                    assert(self.subcomponents@.dom().contains(k));
                    assert(keys@.to_set().contains(k));
                    assert(keys@.contains(k));
                }
                if exists|m: int| 0 <= m < keys@.len() && keys@[m] == k {
                    let m = choose|m: int| 0 <= m < keys@.len() && keys@[m] == k;
                    assert(keys@.contains(k));
                }
            }
        }
        r
    }

    /// Takes the polynomial systems to hold: what they have to fix becomes
    /// fixed, and every unsafe constraint is put aside.
    pub fn assume_systems_hold(&mut self, systems: &Vec<PolynomialSystemFixedSignal>)
        ensures
            final(self)@ == with_systems_assumed(old(self)@, system_models(systems@)),
    {
        let ghost g = self@;
        let ghost models = system_models(systems@);
        let mut i: usize = 0;
        while i < systems.len()
            invariant
                i <= systems@.len(),
                models == system_models(systems@),
                self@ == (GraphModel {
                    fixed_nodes: g.fixed_nodes.union(signals_of_systems(models.take(i as int))),
                    ..g
                }),
            decreases systems@.len() - i,
        {
            let ghost before = self@.fixed_nodes;
            insert_all(&mut self.fixed_nodes, &systems[i].signals_to_fix);
            proof {
                let prev = models.take(i as int);
                let next = models.take(i + 1);
                assert(systems@[i as int]@ == models[i as int]);
                assert forall|s: usize| signals_of_systems(next).contains(s) <==> signals_of_systems(
                    prev,
                ).contains(s) || models[i as int].signals_to_fix.contains(s) by {
                    if signals_of_systems(next).contains(s) {
                        let k = choose|k: int|
                            0 <= k < next.len() && (#[trigger] next[k]).signals_to_fix.contains(s);
                        if k < i {
                            assert(prev[k] == next[k]);
                        }
                    }
                    if signals_of_systems(prev).contains(s) {
                        let k = choose|k: int|
                            0 <= k < prev.len() && (#[trigger] prev[k]).signals_to_fix.contains(s);
                        assert(next[k] == prev[k]);
                    }
                    if models[i as int].signals_to_fix.contains(s) {
                        assert(next[i as int] == models[i as int]);
                    }
                }
                assert(self@.fixed_nodes =~= g.fixed_nodes.union(signals_of_systems(next)));
            }
            i = i + 1;
        }
        assert(models.take(i as int) =~= models);
        retire_all(&mut self.unsafe_constraints);
        assert(self@ =~~= with_systems_assumed(g, models));
    }
}

/// The verdict on a component whose graph has come to rest.
///
/// Where unsafe constraints are still active, the component is safe on
/// condition of the polynomial systems that they ask for, or, if they
/// cannot be turned into systems, not to be judged. Where none is active,
/// the component is unsafe if an output of it is not fixed, and safe
/// otherwise. A safe component is safe on condition of the components below
/// it and of the systems assumed on the way.
pub enum FrameVerdict {
    /// Safe, on condition of these systems beside those assumed before.
    ConditionallySafe(Seq<PolynomialSystemModel>),
    /// Unsafe: the outputs with these names are not fixed.
    Unsafe(Seq<Seq<char>>),
    /// Not to be judged.
    Exception(crate::verdict::VerificationException),
}

/// The verdict that the graph of a component calls for.
///
/// Safe assignments that are still active are not looked at. At rest such
/// an assignment waits for a signal on its right-hand side that is not
/// fixed, and the signal that it assigns is either fixed by another way or
/// not fixed at all. In the second case the signal is no output where the
/// component is called safe here, for then every output is fixed: it is an
/// intermediate signal or an input of a component below that was never
/// activated, and what the verdict is about, that the outputs are
/// determined by the inputs, holds without it.
pub open spec fn frame_verdict(
    g: GraphModel,
    reductions: Seq<ConstraintModel>,
    context: &InputDataContextView,
) -> FrameVerdict {
    if has_active_unsafe_constraint(g) {
        match extraction(g, reductions, context) {
            Ok(systems) => FrameVerdict::ConditionallySafe(systems),
            Err(exception) => FrameVerdict::Exception(exception),
        }
    } else {
        let names = unfixed_output_names(
            context,
            g.fixed_nodes,
            context.tree_constraints.number_outputs as nat,
        );
        if names.len() == 0 {
            FrameVerdict::ConditionallySafe(Seq::empty())
        } else {
            FrameVerdict::Unsafe(names)
        }
    }
}

/// Whether every output of the component has a name.
pub fn check_outputs_named(context: &InputDataContextView) -> (r: bool)
    requires
        context.tree_constraints.ports_in_bounds(),
    ensures
        r == outputs_named(context),
{
    let tree = context.tree_constraints;
    let mut i: usize = 0;
    while i < tree.number_outputs
        invariant
            i <= tree.number_outputs,
            tree == context.tree_constraints,
            tree.ports_in_bounds(),
            forall|s: usize|
                tree.initial_signal <= s < tree.initial_signal + i
                    ==> #[trigger] context.signal_name_map@.contains_key(s),
        decreases tree.number_outputs - i,
    {
        let signal = tree.initial_signal + i;
        if !context.signal_name_map.contains_key(&signal) {
            assert(tree.is_output(signal));
            return false;
        }
        i = i + 1;
    }
    true
}

/// The names of the outputs of the component that are not fixed.
fn unfixed_outputs(graph: &VerificationGraph, context: &InputDataContextView) -> (r: Vec<String>)
    requires
        context.tree_constraints.ports_in_bounds(),
        outputs_named(context),
    ensures
        texts(r@) == unfixed_output_names(
            context,
            graph@.fixed_nodes,
            context.tree_constraints.number_outputs as nat,
        ),
{
    let tree = context.tree_constraints;
    let mut names: Vec<String> = Vec::new();
    let mut i: usize = 0;
    while i < tree.number_outputs
        invariant
            i <= tree.number_outputs,
            tree == context.tree_constraints,
            tree.ports_in_bounds(),
            outputs_named(context),
            texts(names@) == unfixed_output_names(context, graph@.fixed_nodes, i as nat),
        decreases tree.number_outputs - i,
    {
        let signal = tree.initial_signal + i;
        if !graph.fixed_nodes.contains(&signal) {
            assert(tree.is_output(signal));
            assert(context.signal_name_map@.contains_key(signal));
            let name = context.signal_name_map.get(&signal).unwrap().clone();
            let ghost before = texts(names@);
            names.push(name);
            assert(texts(names@) =~= before.push(name@));
        }
        i = i + 1;
    }
    names
}

impl VerificationGraph {
    /// The verdict on the component, for a graph that has come to rest.
    /// `reductions` holds, for each unsafe constraint, the constraint that
    /// stands for it in a system; `subcomponents` holds the verdicts on the
    /// components below, and `assumed` the polynomial systems that were
    /// taken to hold on the way.
    pub fn verdict(
        &self,
        context: &InputDataContextView,
        reductions: &Vec<Constraint>,
        subcomponents: Vec<SubComponentVerificationResult>,
        assumed: Vec<PolynomialSystemFixedSignal>,
    ) -> (r: SubComponentVerificationResult)
        requires
            reductions@.len() == self.unsafe_constraints@.len(),
            forall|j: int| 0 <= j < reductions@.len() ==> (#[trigger] reductions@[j]).wf(),
            forall|i: int| 0 <= i < assumed@.len() ==> (#[trigger] assumed@[i]).wf(),
            context.tree_constraints.ports_in_bounds(),
            outputs_named(context),
        ensures
            r.subcomponent_name@ == context.tree_constraints.component_name@,
            match frame_verdict(self@, constraint_models(reductions@), context) {
                FrameVerdict::ConditionallySafe(systems) => r.kind matches SubComponentVerificationResultKind::ModuleConditionallySafe(
                    conditions,
                ) && conditions.subcomponents == subcomponents && system_models(
                    conditions.pol_systems@,
                ) == system_models(assumed@) + systems && forall|i: int|
                    0 <= i < conditions.pol_systems@.len() ==> (#[trigger] conditions.pol_systems@[i]).wf(),
                FrameVerdict::Unsafe(names) => r.kind matches SubComponentVerificationResultKind::ModuleUnsafe(
                    ModuleUnsafeReason::UnfixedOutputsAfterPropagation(outputs),
                ) && texts(outputs@) == names,
                FrameVerdict::Exception(exception) => r.kind
                    == SubComponentVerificationResultKind::Exception(exception),
            },
    {
        let name = context.tree_constraints.component_name.clone();
        let mut pol_systems = assumed;
        if self.has_active_unsafe_constraints() {
            match self.extract_polynomial_systems(context, reductions) {
                Ok(mut systems) => {
                    let ghost first = system_models(pol_systems@);
                    let ghost second = system_models(systems@);
                    pol_systems.append(&mut systems);
                    assert(system_models(pol_systems@) =~= first + second);
                    SubComponentVerificationResult {
                        kind: SubComponentVerificationResultKind::ModuleConditionallySafe(
                            SafetyConditions { subcomponents, pol_systems },
                        ),
                        subcomponent_name: name,
                    }
                },
                Err(exception) => SubComponentVerificationResult {
                    kind: SubComponentVerificationResultKind::Exception(exception),
                    subcomponent_name: name,
                },
            }
        } else {
            let names = unfixed_outputs(self, context);
            if names.len() == 0 {
                assert(system_models(pol_systems@) =~= system_models(pol_systems@) + Seq::<
                    PolynomialSystemModel,
                >::empty());
                SubComponentVerificationResult {
                    kind: SubComponentVerificationResultKind::ModuleConditionallySafe(
                        SafetyConditions { subcomponents, pol_systems },
                    ),
                    subcomponent_name: name,
                }
            } else {
                SubComponentVerificationResult {
                    kind: SubComponentVerificationResultKind::ModuleUnsafe(
                        ModuleUnsafeReason::UnfixedOutputsAfterPropagation(names),
                    ),
                    subcomponent_name: name,
                }
            }
        }
    }
}

/// What is to be done next with the graph of a component.
pub enum FrameStep {
    /// Unsafe constraints have fixed signals: for each of them, given with
    /// its signal, the substitution that it yields is to be recorded, and
    /// the constraints are to be reduced anew.
    Substitute(Vec<(usize, usize)>),
    /// Propagation has come to rest, and what was left over has been taken
    /// to hold as polynomial systems; propagation is to go on.
    Assumed,
    /// Nothing is left to do: the verdict is due.
    AtRest,
}

/// The step took the graph from `start` to `end` by way of `n` sweeps that
/// each called for another and one more, after which the graph was
/// `rested`, and did to the assumed systems what it says.
pub open spec fn analysis_step_holds(
    start: GraphModel,
    reduced: Seq<ConstraintModel>,
    context: &InputDataContextView,
    n: nat,
    step: FrameStep,
    end: GraphModel,
    assumed_before: Seq<PolynomialSystemModel>,
    assumed_after: Seq<PolynomialSystemModel>,
) -> bool {
    let before = sweeps(start, reduced, n);
    let rested = sweep(before, reduced);
    swept_on(start, reduced, n) && match step {
        FrameStep::Substitute(list) => {
            &&& end == rested
            &&& list@.len() > 0
            &&& lists_linearised(
                list@,
                before.unsafe_constraints,
                reduced,
                activate_subcomponents(fire_safe_assignments(before)).fixed_nodes,
            )
            &&& assumed_after == assumed_before
        },
        FrameStep::Assumed => {
            &&& !made_progress(before, rested)
            &&& has_active_unsafe_constraint(rested)
            &&& extraction(rested, reduced, context) matches Ok(systems)
            &&& end == with_systems_assumed(rested, systems)
            &&& assumed_after == assumed_before + systems
        },
        FrameStep::AtRest => {
            &&& !made_progress(before, rested)
            &&& end == rested
            &&& has_active_unsafe_constraint(rested) ==> extraction(rested, reduced, context) is Err
            &&& assumed_after == assumed_before
        },
    }
}

impl VerificationGraph {
    /// One step of the analysis of a component. Propagates until nothing
    /// changes or until unsafe constraints have fixed signals. In the
    /// second case the substitutions are asked for. In the first, what is
    /// left of the unsafe constraints is turned into polynomial systems,
    /// which are added to `assumed` and taken to hold; if that cannot be
    /// done, or if nothing is left, the graph is at rest.
    pub fn analysis_step(
        &mut self,
        context: &InputDataContextView,
        reductions: &Vec<Constraint>,
        assumed: &mut Vec<PolynomialSystemFixedSignal>,
    ) -> (step: FrameStep)
        requires
            reductions@.len() == old(self).unsafe_constraints@.len(),
            forall|j: int| 0 <= j < reductions@.len() ==> (#[trigger] reductions@[j]).wf(),
            forall|i: int| 0 <= i < old(assumed)@.len() ==> (#[trigger] old(assumed)@[i]).wf(),
        ensures
            final(self).unsafe_constraints@.len() == old(self).unsafe_constraints@.len(),
            forall|i: int| 0 <= i < final(assumed)@.len() ==> (#[trigger] final(assumed)@[i]).wf(),
            exists|n: nat| #[trigger]
                analysis_step_holds(
                    old(self)@,
                    constraint_models(reductions@),
                    context,
                    n,
                    step,
                    final(self)@,
                    system_models(old(assumed)@),
                    system_models(final(assumed)@),
                ),
    {
        let ghost start = self@;
        let ghost reduced = constraint_models(reductions@);
        let ghost assumed_before = system_models(assumed@);
        let outcome = self.propagate(reductions);
        let ghost rested = self@;
        let ghost n = choose|n: nat| #[trigger]
            propagation_holds(start, reduced, n, outcome.progress, outcome.linearised@, rested);
        if outcome.linearised.len() > 0 {
            let step = FrameStep::Substitute(outcome.linearised);
            assert(analysis_step_holds(
                start,
                reduced,
                context,
                n,
                step,
                rested,
                assumed_before,
                assumed_before,
            ));
            return step;
        }
        let step = self.assume_what_is_left(context, reductions, assumed);
        assert(analysis_step_holds(
            start,
            reduced,
            context,
            n,
            step,
            self@,
            assumed_before,
            system_models(assumed@),
        ));
        step
    }

    /// Turns what is left of the unsafe constraints into polynomial
    /// systems, adds them to `assumed` and takes them to hold; leaves the
    /// graph at rest if that cannot be done or if nothing is left.
    fn assume_what_is_left(
        &mut self,
        context: &InputDataContextView,
        reductions: &Vec<Constraint>,
        assumed: &mut Vec<PolynomialSystemFixedSignal>,
    ) -> (step: FrameStep)
        requires
            reductions@.len() == old(self).unsafe_constraints@.len(),
            forall|j: int| 0 <= j < reductions@.len() ==> (#[trigger] reductions@[j]).wf(),
            forall|i: int| 0 <= i < old(assumed)@.len() ==> (#[trigger] old(assumed)@[i]).wf(),
        ensures
            final(self).unsafe_constraints@.len() == old(self).unsafe_constraints@.len(),
            forall|i: int| 0 <= i < final(assumed)@.len() ==> (#[trigger] final(assumed)@[i]).wf(),
            match step {
                FrameStep::Substitute(_) => false,
                FrameStep::Assumed => {
                    &&& has_active_unsafe_constraint(old(self)@)
                    &&& extraction(old(self)@, constraint_models(reductions@), context) matches Ok(
                        systems,
                    )
                    &&& final(self)@ == with_systems_assumed(old(self)@, systems)
                    &&& system_models(final(assumed)@) == system_models(old(assumed)@) + systems
                },
                FrameStep::AtRest => {
                    &&& final(self)@ == old(self)@
                    &&& has_active_unsafe_constraint(old(self)@) ==> extraction(
                        old(self)@,
                        constraint_models(reductions@),
                        context,
                    ) is Err
                    &&& final(assumed)@ == old(assumed)@
                },
            },
    {
        if !self.has_active_unsafe_constraints() {
            return FrameStep::AtRest;
        }
        match self.extract_polynomial_systems(context, reductions) {
            Ok(mut systems) => {
                self.assume_systems_hold(&systems);
                assert(self@.unsafe_constraints.len() == old(self)@.unsafe_constraints.len());
                assert(self@.unsafe_constraints.len() == self.unsafe_constraints@.len());
                let ghost first = system_models(assumed@);
                let ghost second = system_models(systems@);
                assumed.append(&mut systems);
                assert(system_models(assumed@) =~= first + second);
                FrameStep::Assumed
            },
            Err(_) => FrameStep::AtRest,
        }
    }
}

} // verus!
