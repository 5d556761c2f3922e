//! The verdict on a component and on the components below it.

use crate::algebra::{constraint_models, Constraint, ConstraintModel, SignalIndex};
use crate::numbers::{decimal_nat, usize_to_string};
use crate::text::{join_strings, joined, texts};
use std::collections::BTreeSet;
use vstd::prelude::*;
use vstd::string::*;

verus! {

/// A system of constraints together with the signals that it has to fix.
pub struct PolynomialSystemFixedSignal {
    pub constraints: Vec<Constraint>,
    /// The signals that the constraints have to determine.
    pub signals_to_fix: BTreeSet<SignalIndex>,
    /// The template of the component that the system comes from.
    pub template_name: String,
    /// The name of the component that the system comes from.
    pub component_name: String,
}

/// A polynomial system as mathematics sees it.
#[verifier::ext_equal]
pub struct PolynomialSystemModel {
    pub constraints: Seq<ConstraintModel>,
    pub signals_to_fix: Set<usize>,
    pub template_name: Seq<char>,
    pub component_name: Seq<char>,
}

impl View for PolynomialSystemFixedSignal {
    type V = PolynomialSystemModel;

    open spec fn view(&self) -> PolynomialSystemModel {
        PolynomialSystemModel {
            constraints: constraint_models(self.constraints@),
            signals_to_fix: self.signals_to_fix@,
            template_name: self.template_name@,
            component_name: self.component_name@,
        }
    }
}

impl PolynomialSystemFixedSignal {
    /// Every constraint of the system is well formed.
    pub open spec fn wf(&self) -> bool {
        forall|i: int| 0 <= i < self.constraints@.len() ==> (#[trigger] self.constraints@[i]).wf()
    }

    /// A copy of the system.
    pub fn clone(&self) -> (r: PolynomialSystemFixedSignal)
        requires
            self.wf(),
        ensures
            r.wf(),
            r@ == self@,
    {
        let mut constraints: Vec<Constraint> = Vec::new();
        let mut i: usize = 0;
        while i < self.constraints.len()
            invariant
                i <= self.constraints@.len(),
                self.wf(),
                constraints@.len() == i,
                forall|k: int| 0 <= k < i ==> (#[trigger] constraints@[k]).wf(),
                forall|k: int| 0 <= k < i ==> (#[trigger] constraints@[k])@ == self.constraints@[k]@,
            decreases self.constraints@.len() - i,
        {
            constraints.push(self.constraints[i].clone());
            i = i + 1;
        }
        let r = PolynomialSystemFixedSignal {
            constraints,
            signals_to_fix: self.signals_to_fix.clone(),
            template_name: self.template_name.clone(),
            component_name: self.component_name.clone(),
        };
        assert(r@.constraints =~= self@.constraints);
        r
    }
}

/// Why the safety of a component could not be judged.
#[derive(Clone, Copy, PartialEq, Eq, Structural, Debug)]
pub enum VerificationException {
    /// What is left of the unsafe constraints cannot be turned into
    /// polynomial systems.
    NoUnsafeConstraintConnectedComponentWithoutCycles,
}

/// Why a component is unsafe.
pub enum ModuleUnsafeReason {
    /// The outputs with these names are not fixed after propagation, and no
    /// unsafe constraint is left that could fix them.
    UnfixedOutputsAfterPropagation(Vec<String>),
}

/// What has to hold for a component to be safe.
pub struct SafetyConditions {
    /// The components below, each with its own verdict.
    pub subcomponents: Vec<SubComponentVerificationResult>,
    /// The polynomial systems that must have one solution only.
    pub pol_systems: Vec<PolynomialSystemFixedSignal>,
}

/// The verdict on a component.
pub enum SubComponentVerificationResultKind {
    ModuleUnsafe(ModuleUnsafeReason),
    ModuleConditionallySafe(SafetyConditions),
    Exception(VerificationException),
}

/// The verdict on a component, with the name of the component.
pub struct SubComponentVerificationResult {
    pub kind: SubComponentVerificationResultKind,
    pub subcomponent_name: String,
}

/// The names, each between single quotes.
pub open spec fn quoted(names: Seq<Seq<char>>) -> Seq<Seq<char>> {
    Seq::new(names.len(), |i: int| "'"@ + names[i] + "'"@)
}

/// What is to be said of a verdict that is an error; nothing of one that is none.
pub open spec fn error_text(result: &SubComponentVerificationResult) -> Option<Seq<char>> {
    let name = result.subcomponent_name@;
    match result.kind {
        SubComponentVerificationResultKind::ModuleConditionallySafe(_) => None,
        SubComponentVerificationResultKind::ModuleUnsafe(
            ModuleUnsafeReason::UnfixedOutputsAfterPropagation(outputs),
        ) => if outputs@.len() == 1 {
            Some(
                "[Unsafe] Component '"@ + name + "' is unsafe. Output '"@ + outputs@[0]@
                    + "' is not fixed by inputs"@,
            )
        } else {
            Some(
                "[Unsafe] Component '"@ + name + "' is unsafe. Outputs "@ + joined(
                    quoted(texts(outputs@)),
                    ", "@,
                ) + " are not fixed by inputs"@,
            )
        },
        SubComponentVerificationResultKind::Exception(_) => Some(
            "[Exception] Cyclic dependencies between === constraints connected component in component '"@
                + name + "', cannot determine safety"@,
        ),
    }
}

/// The verdicts directly below a verdict.
pub open spec fn children(result: &SubComponentVerificationResult) -> Seq<
    SubComponentVerificationResult,
> {
    match result.kind {
        SubComponentVerificationResultKind::ModuleConditionallySafe(conditions) => conditions.subcomponents@,
        _ => Seq::empty(),
    }
}

/// The polynomial systems that a verdict itself asks for.
pub open spec fn own_systems(result: &SubComponentVerificationResult) -> Seq<
    PolynomialSystemFixedSignal,
> {
    match result.kind {
        SubComponentVerificationResultKind::ModuleConditionallySafe(conditions) => conditions.pol_systems@,
        _ => Seq::empty(),
    }
}

/// A verdict and all the verdicts below it: the verdict first, then what
/// its first child yields, then what its second yields, and so on.
pub open spec fn flattened(result: &SubComponentVerificationResult) -> Seq<
    SubComponentVerificationResult,
>
    decreases result, children(result).len() + 1,
{
    seq![*result] + flattened_children(result, children(result).len())
}

/// What the first `count` children of a verdict yield, in order.
pub open spec fn flattened_children(result: &SubComponentVerificationResult, count: nat) -> Seq<
    SubComponentVerificationResult,
>
    decreases result, count,
{
    if count == 0 || count > children(result).len() {
        Seq::empty()
    } else {
        flattened_children(result, (count - 1) as nat) + flattened(
            &children(result)[count - 1],
        )
    }
}

impl SubComponentVerificationResult {
    /// What is to be said of the verdict if it is an error. Does not look
    /// at the verdicts below.
    pub fn get_error_string(&self) -> (r: Option<String>)
        ensures
            r is Some <==> error_text(self) is Some,
            r matches Some(text) ==> Some(text@) == error_text(self),
    {
        match &self.kind {
            SubComponentVerificationResultKind::ModuleConditionallySafe(_) => None,
            SubComponentVerificationResultKind::ModuleUnsafe(
                ModuleUnsafeReason::UnfixedOutputsAfterPropagation(unfixed_outputs),
            ) => {
                let mut text = String::from_str("[Unsafe] Component '");
                text.append(self.subcomponent_name.as_str());
                if unfixed_outputs.len() == 1 {
                    text.append("' is unsafe. Output '");
                    text.append(unfixed_outputs[0].as_str());
                    text.append("' is not fixed by inputs");
                } else {
                    let mut names: Vec<String> = Vec::new();
                    let ghost all = quoted(texts(unfixed_outputs@));
                    let mut i: usize = 0;
                    while i < unfixed_outputs.len()
                        invariant
                            i <= unfixed_outputs@.len(),
                            all == quoted(texts(unfixed_outputs@)),
                            texts(names@) == all.take(i as int),
                        decreases unfixed_outputs@.len() - i,
                    {
                        let mut name = String::from_str("'");
                        name.append(unfixed_outputs[i].as_str());
                        name.append("'");
                        let ghost before = texts(names@);
                        names.push(name);
                        proof {
                            assert(texts(names@) =~= before.push(all[i as int]));
                            assert(all.take(i + 1) =~= all.take(i as int).push(all[i as int]));
                        }
                        i = i + 1;
                    }
                    assert(all.take(i as int) =~= all);
                    text.append("' is unsafe. Outputs ");
                    text.append(join_strings(&names, ", ").as_str());
                    text.append(" are not fixed by inputs");
                }
                Some(text)
            },
            SubComponentVerificationResultKind::Exception(_) => {
                let mut text = String::from_str(
                    "[Exception] Cyclic dependencies between === constraints connected component in component '",
                );
                text.append(self.subcomponent_name.as_str());
                text.append("', cannot determine safety");
                Some(text)
            },
        }
    }
}

/// What a traversal of verdicts has gathered.
#[verifier::ext_equal]
pub struct ReportModel {
    /// What is to be said of the errors, in the order they were met.
    pub messages: Seq<Seq<char>>,
    pub num_unsafe: nat,
    pub num_exceptions: nat,
    /// The polynomial systems asked for, in the order they were met.
    pub systems: Seq<PolynomialSystemModel>,
}

/// The polynomial systems as mathematics sees them.
pub open spec fn system_models(systems: Seq<PolynomialSystemFixedSignal>) -> Seq<
    PolynomialSystemModel,
> {
    systems.map_values(|s: PolynomialSystemFixedSignal| s@)
}

/// The report with one more verdict taken note of.
pub open spec fn noted(report: ReportModel, result: &SubComponentVerificationResult) -> ReportModel {
    ReportModel {
        messages: match error_text(result) {
            Some(text) => report.messages.push(text),
            None => report.messages,
        },
        num_unsafe: report.num_unsafe + if result.kind is ModuleUnsafe {
            1nat
        } else {
            0nat
        },
        num_exceptions: report.num_exceptions + if result.kind is Exception {
            1nat
        } else {
            0nat
        },
        systems: report.systems + system_models(own_systems(result)),
    }
}

/// The report on a list of verdicts, taken note of in order.
pub open spec fn report_of(results: Seq<SubComponentVerificationResult>) -> ReportModel
    decreases results.len(),
{
    if results.len() == 0 {
        ReportModel {
            messages: Seq::empty(),
            num_unsafe: 0,
            num_exceptions: 0,
            systems: Seq::empty(),
        }
    } else {
        noted(report_of(results.drop_last()), &results.last())
    }
}

/// Every polynomial system of the verdict and of the verdicts below it is
/// well formed.
pub open spec fn result_wf(result: &SubComponentVerificationResult) -> bool
    decreases result,
{
    &&& forall|i: int|
        0 <= i < own_systems(result).len() ==> (#[trigger] own_systems(result)[i]).wf()
    &&& forall|i: int|
        0 <= i < children(result).len() ==> result_wf(&#[trigger] children(result)[i])
}

/// The line that sums up the errors of a traversal.
pub open spec fn summary_text(num_unsafe: nat, num_exceptions: nat) -> Seq<char> {
    decimal_nat(num_unsafe) + " unsafe modules found, "@ + decimal_nat(num_exceptions)
        + " exceptions found on verification graph traversal. Aborting safety verification..."@
}

/// What a traversal of the verdicts of a run has found.
pub struct FlattenedVerificationResult {
    /// What is to be said of the errors, in the order they were met, and
    /// after them the line that sums them up.
    pub messages: Vec<String>,
    pub num_unsafe_found: usize,
    pub num_exceptions_found: usize,
    /// The polynomial systems to settle, where no error was met.
    pub polynomial_systems_to_prove: Option<Vec<PolynomialSystemFixedSignal>>,
}

/// The state of a traversal.
struct Traversal {
    messages: Vec<String>,
    num_unsafe: usize,
    num_exceptions: usize,
    systems: Vec<PolynomialSystemFixedSignal>,
}

impl Traversal {
    spec fn model(&self) -> ReportModel {
        ReportModel {
            messages: texts(self.messages@),
            num_unsafe: self.num_unsafe as nat,
            num_exceptions: self.num_exceptions as nat,
            systems: system_models(self.systems@),
        }
    }

    spec fn wf(&self) -> bool {
        &&& self.num_unsafe + self.num_exceptions == self.messages@.len()
        &&& forall|i: int| 0 <= i < self.systems@.len() ==> (#[trigger] self.systems@[i]).wf()
    }
}

/// Takes note of a verdict and then of the verdicts below it.
fn visit(
    result: &SubComponentVerificationResult,
    traversal: &mut Traversal,
    Ghost(seen): Ghost<Seq<SubComponentVerificationResult>>,
)
    requires
        result_wf(result),
        old(traversal).wf(),
        old(traversal).model() == report_of(seen),
    ensures
        final(traversal).wf(),
        final(traversal).model() == report_of(seen + flattened(result)),
    decreases result,
{
    let ghost before = traversal.model();
    match result.get_error_string() {
        Some(text) => {
            traversal.messages.push(text);
            assert(texts(traversal.messages@) =~= before.messages.push(text@));
        },
        None => {},
    }
    proof {
        assert(seen.push(*result).drop_last() =~= seen);
    }
    let noted_messages = traversal.messages.len();
    match &result.kind {
        SubComponentVerificationResultKind::ModuleUnsafe(_) => {
            traversal.num_unsafe = traversal.num_unsafe + 1;
            proof {
                assert(system_models(traversal.systems@) =~= before.systems + system_models(
                    own_systems(result),
                ));
                assert(traversal.model() =~= report_of(seen.push(*result)));
                assert(seen + flattened(result) =~= seen.push(*result));
            }
        },
        SubComponentVerificationResultKind::Exception(_) => {
            traversal.num_exceptions = traversal.num_exceptions + 1;
            proof {
                assert(system_models(traversal.systems@) =~= before.systems + system_models(
                    own_systems(result),
                ));
                assert(traversal.model() =~= report_of(seen.push(*result)));
                assert(seen + flattened(result) =~= seen.push(*result));
            }
        },
        SubComponentVerificationResultKind::ModuleConditionallySafe(conditions) => {
            let ghost own = own_systems(result);
            let mut k: usize = 0;
            while k < conditions.pol_systems.len()
                invariant
                    k <= own.len(),
                    own == conditions.pol_systems@,
                    forall|i: int| 0 <= i < own.len() ==> (#[trigger] own[i]).wf(),
                    traversal.wf(),
                    texts(traversal.messages@) == before.messages,
                    traversal.num_unsafe == before.num_unsafe,
                    traversal.num_exceptions == before.num_exceptions,
                    system_models(traversal.systems@) == before.systems + system_models(
                        own.take(k as int),
                    ),
                decreases own.len() - k,
            {
                let ghost systems_before = system_models(traversal.systems@);
                traversal.systems.push(conditions.pol_systems[k].clone());
                proof {
                    assert(system_models(traversal.systems@) =~= systems_before.push(own[k as int]@));
                    assert(system_models(own.take(k + 1)) =~= system_models(
                        own.take(k as int),
                    ).push(own[k as int]@));
                }
                k = k + 1;
            }
            proof {
                assert(own.take(k as int) =~= own);
                assert(traversal.model() =~= report_of(seen.push(*result)));
            }
            let ghost below = children(result);
            let mut i: usize = 0;
            while i < conditions.subcomponents.len()
                invariant
                    i <= below.len(),
                    below == conditions.subcomponents@,
                    below == children(result),
                    result_wf(result),
                    traversal.wf(),
                    traversal.model() == report_of(
                        seen.push(*result) + flattened_children(result, i as nat),
                    ),
                decreases below.len() - i,
            {
                let child = &conditions.subcomponents[i];
                assert(result_wf(&children(result)[i as int]));
                visit(
                    child,
                    traversal,
                    Ghost(seen.push(*result) + flattened_children(result, i as nat)),
                );
                proof {
                    assert(seen.push(*result) + flattened_children(result, (i + 1) as nat) =~= seen.push(
                        *result,
                    ) + flattened_children(result, i as nat) + flattened(child));
                }
                i = i + 1;
            }
            proof {
                assert(seen + flattened(result) =~= seen.push(*result) + flattened_children(
                    result,
                    below.len(),
                ));
            }
        },
    }
}

/// Goes through a verdict and the verdicts below it. Gathers what is to be
/// said of the errors met, and the polynomial systems to settle. Where an
/// error was met, a line sums the errors up and no system is handed on.
pub fn flatten_verification_result_and_report_errors(
    verification_result: &SubComponentVerificationResult,
) -> (r: FlattenedVerificationResult)
    requires
        result_wf(verification_result),
    ensures
        ({
            let report = report_of(flattened(verification_result));
            &&& r.num_unsafe_found == report.num_unsafe
            &&& r.num_exceptions_found == report.num_exceptions
            &&& texts(r.messages@) == if report.num_unsafe + report.num_exceptions > 0 {
                report.messages.push(summary_text(report.num_unsafe, report.num_exceptions))
            } else {
                report.messages
            }
            &&& r.polynomial_systems_to_prove is Some <==> report.num_unsafe
                + report.num_exceptions == 0
            &&& r.polynomial_systems_to_prove matches Some(systems) ==> system_models(systems@)
                == report.systems && forall|i: int|
                0 <= i < systems@.len() ==> (#[trigger] systems@[i]).wf()
        }),
{
    let mut traversal = Traversal {
        messages: Vec::new(),
        num_unsafe: 0,
        num_exceptions: 0,
        systems: Vec::new(),
    };
    assert(traversal.model() =~= report_of(Seq::empty()));
    visit(verification_result, &mut traversal, Ghost(Seq::empty()));
    assert(Seq::<SubComponentVerificationResult>::empty() + flattened(verification_result)
        =~= flattened(verification_result));
    let Traversal { mut messages, num_unsafe, num_exceptions, systems } = traversal;
    let noted_messages = messages.len();
    if num_unsafe + num_exceptions > 0 {
        let mut summary = usize_to_string(num_unsafe);
        summary.append(" unsafe modules found, ");
        summary.append(usize_to_string(num_exceptions).as_str());
        summary.append(
            " exceptions found on verification graph traversal. Aborting safety verification...",
        );
        let ghost before = texts(messages@);
        messages.push(summary);
        assert(texts(messages@) =~= before.push(summary@));
        FlattenedVerificationResult {
            messages,
            num_unsafe_found: num_unsafe,
            num_exceptions_found: num_exceptions,
            polynomial_systems_to_prove: None,
        }
    } else {
        FlattenedVerificationResult {
            messages,
            num_unsafe_found: num_unsafe,
            num_exceptions_found: num_exceptions,
            polynomial_systems_to_prove: Some(systems),
        }
    }
}

impl SubComponentVerificationResult {
    /// Calls `f` on the verdict and then on the verdicts below it, in the
    /// order of `flattened`.
    pub fn apply<F>(&self, f: &F) where F: Fn(&SubComponentVerificationResult)
        requires
            forall|node: &SubComponentVerificationResult| call_requires(*f, (node,)),
        ensures
            forall|i: int|
                0 <= i < flattened(self).len() ==> call_ensures(
                    *f,
                    (&#[trigger] flattened(self)[i],),
                    (),
                ),
        decreases self,
    {
        f(self);
        let ghost below = children(self);
        if let SubComponentVerificationResultKind::ModuleConditionallySafe(conditions) = &self.kind {
            let mut i: usize = 0;
            while i < conditions.subcomponents.len()
                invariant
                    i <= below.len(),
                    below == conditions.subcomponents@,
                    below == children(self),
                    forall|node: &SubComponentVerificationResult| call_requires(*f, (node,)),
                    forall|k: int|
                        0 <= k < flattened_children(self, i as nat).len() ==> call_ensures(
                            *f,
                            (&#[trigger] flattened_children(self, i as nat)[k],),
                            (),
                        ),
                decreases below.len() - i,
            {
                let child = &conditions.subcomponents[i];
                child.apply(f);
                proof {
                    let before = flattened_children(self, i as nat);
                    let after = flattened_children(self, (i + 1) as nat);
                    assert(after =~= before + flattened(child));
                    assert forall|k: int| 0 <= k < after.len() implies call_ensures(
                        *f,
                        (&#[trigger] after[k],),
                        (),
                    ) by {
                        if k < before.len() {
                            assert(after[k] == before[k]);
                        } else {
                            assert(after[k] == flattened(child)[k - before.len()]);
                        }
                    }
                }
                i = i + 1;
            }
        }
        proof {
            let all = flattened(self);
            let rest = flattened_children(self, below.len());
            assert(all =~= seq![*self] + rest);
            assert forall|i: int| 0 <= i < all.len() implies call_ensures(
                *f,
                (&#[trigger] all[i],),
                (),
            ) by {
                if i > 0 {
                    assert(all[i] == rest[i - 1]);
                }
            }
        }
    }
}

/// What is to be done once the verdicts of a run are in.
pub enum VerificationStep {
    /// Nothing: an error was met, and the circuit is not shown to be safe.
    Unsafe,
    /// Nothing: the circuit is safe.
    Safe,
    /// These polynomial systems are to be settled; the circuit is safe if
    /// each of them has one solution only.
    Submit(Vec<PolynomialSystemFixedSignal>),
}

/// What is to be done, with what is to be said.
pub struct VerificationOutline {
    pub step: VerificationStep,
    pub messages: Vec<String>,
}

/// Decides what is to be done once the verdicts of a run are in. Where an
/// error was met the circuit is not shown to be safe. Where no polynomial
/// system is asked for it is safe. Otherwise the systems are to be settled.
pub fn verify(verification_result: &SubComponentVerificationResult) -> (r: VerificationOutline)
    requires
        result_wf(verification_result),
    ensures
        ({
            let report = report_of(flattened(verification_result));
            if report.num_unsafe + report.num_exceptions > 0 {
                &&& r.step is Unsafe
                &&& texts(r.messages@) == report.messages.push(
                    summary_text(report.num_unsafe, report.num_exceptions),
                )
            } else if report.systems.len() == 0 {
                &&& r.step is Safe
                &&& texts(r.messages@) == report.messages.push(
                    "No polynomial systems to fix. Finished. Module is safe!"@,
                )
            } else {
                &&& r.step matches VerificationStep::Submit(systems)
                &&& system_models(systems@) == report.systems
                &&& forall|i: int| 0 <= i < systems@.len() ==> (#[trigger] systems@[i]).wf()
                &&& texts(r.messages@) == report.messages.push(
                    "No exceptions or errors reported when traversing tree. Fixing polynomial systems...\n"@,
                )
            }
        }),
{
    let flat = flatten_verification_result_and_report_errors(verification_result);
    let mut messages = flat.messages;
    let ghost before = texts(messages@);
    match flat.polynomial_systems_to_prove {
        None => VerificationOutline { step: VerificationStep::Unsafe, messages },
        Some(systems) => {
            if systems.len() == 0 {
                let line = String::from_str(
                    "No polynomial systems to fix. Finished. Module is safe!",
                );
                messages.push(line);
                assert(texts(messages@) =~= before.push(line@));
                VerificationOutline { step: VerificationStep::Safe, messages }
            } else {
                let line = String::from_str(
                    "No exceptions or errors reported when traversing tree. Fixing polynomial systems...\n",
                );
                messages.push(line);
                assert(texts(messages@) =~= before.push(line@));
                VerificationOutline { step: VerificationStep::Submit(systems), messages }
            }
        },
    }
}

/// What is to be said once the polynomial systems are settled.
pub fn conclusion_message(success: bool) -> (r: String)
    ensures
        r@ == if success {
            "\nMODULE SAFE: all polynomials systems have been fixed"@
        } else {
            "\nCouldn't fix a polynomial system. Aborting verification..."@
        },
{
    if success {
        String::from_str("\nMODULE SAFE: all polynomials systems have been fixed")
    } else {
        String::from_str("\nCouldn't fix a polynomial system. Aborting verification...")
    }
}

} // verus!
