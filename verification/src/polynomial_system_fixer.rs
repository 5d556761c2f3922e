//! From a polynomial system to the script that asks a computer algebra
//! system whether the system has one solution only.
//!
//! The question is put as ideal membership. To the constraints of the system
//! a prohibition polynomial is added, which can vanish only where one of
//! the signals to fix differs from its value in the witness. If `1` lies in
//! the ideal, no such point exists.

use crate::cas_driver::{line_text, CasLine};
use crate::algebra::{
    constraint_models, signals_increasing, term_coefficient, term_contains, term_signals, Constraint, ConstraintModel,
    LinearTerm, SignalIndex, TermModel,
};
use crate::input_data::InputDataContextView;
use crate::numbers::{
    congruent, decimal, decimal_nat, half_towards_zero, lemma_congruent_remainders,
    lemma_congruent_representation, lemma_divides_remainder, usize_to_string, BigInteger,
};
use crate::signal_set::{
    all_keys, insert_all, map_keys, set_to_vec, sorted_keys, strictly_increasing,
};
use crate::text::{
    has_leading_minus, join_strings, joined, precedes, starts_with_minus, text_precedes, texts,
    without_first,
};
use crate::verdict::{system_models, PolynomialSystemFixedSignal, PolynomialSystemModel};
use std::collections::{BTreeMap, BTreeSet};
use vstd::prelude::*;
use vstd::string::*;

verus! {

/// How a signal is written: by its name, for people, or by its index, for
/// the computer algebra system.
#[derive(Clone, Copy, PartialEq, Eq, Structural, Debug)]
pub enum SignalDisplayKind {
    Name,
    Index,
}

/// The position of a polynomial system in the script.
pub type PolSystemIndex = usize;

/// What is known of a signal to fix.
#[derive(Clone, Copy, PartialEq, Eq, Structural, Debug)]
pub struct SignalToFixData {
    /// Whether a constraint of the system restricts the signal to 0 and 1.
    pub is_boolean: bool,
}

/// A polynomial system ready to be written out.
pub struct OptimizedPolynomialSystemFixedSignal {
    pub constraints: Vec<Constraint>,
    pub signals_to_fix: BTreeMap<SignalIndex, SignalToFixData>,
    pub template_name: String,
    pub component_name: String,
}

/// A prohibition polynomial as text, with the number of its variables.
pub struct ProhibitionPolynomial {
    pub string: String,
    pub num_vars: usize,
}

impl OptimizedPolynomialSystemFixedSignal {
    /// Every constraint of the system is well formed.
    pub open spec fn wf(&self) -> bool {
        forall|i: int| 0 <= i < self.constraints@.len() ==> (#[trigger] self.constraints@[i]).wf()
    }

    /// The constraints of the system as mathematics sees them.
    pub open spec fn constraint_models(&self) -> Seq<ConstraintModel> {
        constraint_models(self.constraints@)
    }
}

/// The signal that a constraint restricts to 0 and 1, where the constraint
/// has the shape `x * (x - 1) = 0` with its factors in either order: no
/// linear part, one signal, one factor that is the signal alone with a
/// coefficient congruent to 1, and one that is the signal with a coefficient
/// congruent to 1 and a constant congruent to -1, all modulo the prime.
pub open spec fn binary_restriction(c: ConstraintModel, prime: int) -> Option<usize> {
    if c.c.len() != 0 || !c.has_constant_coefficient() {
        None
    } else if exists|s: usize| c.signals() =~= set![s] {
        let s = choose|s: usize| c.signals() =~= set![s];
        if c.a.len() == 1 && c.b.len() == 2 {
            binary_factors(c.a, c.b, s, prime)
        } else if c.b.len() == 1 && c.a.len() == 2 {
            binary_factors(c.b, c.a, s, prime)
        } else {
            None
        }
    } else {
        None
    }
}

/// The signal `s`, where `single` gives it a coefficient congruent to 1 and
/// `double` gives it a coefficient congruent to 1 beside a constant
/// congruent to -1, all modulo the prime.
pub open spec fn binary_factors(single: TermModel, double: TermModel, s: usize, prime: int) -> Option<
    usize,
> {
    if term_contains(single, s) && congruent(term_coefficient(single, s), 1, prime)
        && term_contains(double, s) && congruent(term_coefficient(double, s), 1, prime)
        && term_contains(double, 0) && congruent(term_coefficient(double, 0), -1, prime) {
        Some(s)
    } else {
        None
    }
}

/// Exchanging the two factors of a constraint does not change what it
/// restricts to 0 and 1.
pub proof fn lemma_binary_restriction_swap(c: ConstraintModel, prime: int)
    ensures
        binary_restriction(c.swapped(), prime) == binary_restriction(c, prime),
{
    assert(c.swapped().signals() =~= c.signals());
    assert(c.swapped().has_constant_coefficient() == c.has_constant_coefficient());
    assert(forall|s: usize| (c.swapped().signals() =~= set![s]) == (c.signals() =~= set![s]));
}

/// The constraint `(a * x) * (b * x + k) = 0` restricts `x` to 0 and 1
/// exactly when `a` and `b` are congruent to 1 and `k` is congruent to -1
/// modulo the prime, with the factors in either order.
pub proof fn lemma_binary_restriction_shape(
    c: ConstraintModel,
    prime: int,
    x: usize,
    a: int,
    b: int,
    k: int,
)
    requires
        x != 0,
        c.a == seq![(x, a)],
        c.b == seq![(0usize, k), (x, b)],
        c.c.len() == 0,
    ensures
        binary_restriction(c, prime) == (if congruent(a, 1, prime) && congruent(b, 1, prime)
            && congruent(k, -1, prime) {
            Some(x)
        } else {
            None
        }),
        binary_restriction(c.swapped(), prime) == binary_restriction(c, prime),
{
    lemma_binary_restriction_swap(c, prime);
    assert(c.b[0].0 == 0);
    assert(c.b[1].0 == x);
    assert(c.a[0].0 == x);
    assert(term_contains(c.b, 0));
    assert(term_contains(c.b, x));
    assert(term_contains(c.a, x));
    assert(c.signals() =~= set![x]) by {
        assert forall|s: usize| c.signals().contains(s) implies s == x by {
            if term_signals(c.a).contains(s) {
                let i = choose|i: int| 0 <= i < c.a.len() && (#[trigger] c.a[i]).0 == s;
            }
            if term_signals(c.b).contains(s) {
                let i = choose|i: int| 0 <= i < c.b.len() && (#[trigger] c.b[i]).0 == s;
            }
            if term_signals(c.c).contains(s) {
                let i = choose|i: int| 0 <= i < c.c.len() && (#[trigger] c.c[i]).0 == s;
            }
        }
        assert(term_signals(c.a).contains(x));
    }
    let s = choose|s: usize| c.signals() =~= set![s];
    assert(c.signals().contains(s));
    assert(s == x);
    assert(signals_increasing(c.a));
    assert(signals_increasing(c.b));
    crate::algebra::lemma_present_coefficient(c.a, 0);
    crate::algebra::lemma_present_coefficient(c.b, 0);
    crate::algebra::lemma_present_coefficient(c.b, 1);
}

/// Whether a constraint restricts a signal to 0 and 1 does not depend on
/// how its coefficients are represented modulo the prime: each of them may
/// be exchanged for a number congruent to it.
pub proof fn lemma_binary_restriction_representation(
    c: ConstraintModel,
    other: ConstraintModel,
    prime: int,
    x: usize,
    a: int,
    b: int,
    k: int,
    other_a: int,
    other_b: int,
    other_k: int,
)
    requires
        x != 0,
        c.a == seq![(x, a)],
        c.b == seq![(0usize, k), (x, b)],
        c.c.len() == 0,
        other.a == seq![(x, other_a)],
        other.b == seq![(0usize, other_k), (x, other_b)],
        other.c.len() == 0,
        congruent(a, other_a, prime),
        congruent(b, other_b, prime),
        congruent(k, other_k, prime),
    ensures
        binary_restriction(c, prime) == binary_restriction(other, prime),
        binary_restriction(c.swapped(), prime) == binary_restriction(other.swapped(), prime),
{
    lemma_binary_restriction_shape(c, prime, x, a, b, k);
    lemma_binary_restriction_shape(other, prime, x, other_a, other_b, other_k);
    lemma_congruent_representation(a, other_a, 1, prime);
    lemma_congruent_representation(b, other_b, 1, prime);
    lemma_congruent_representation(k, other_k, -1, prime);
}

/// Modulo a prime, which is greater than 1, the constraint
/// `(a * x) * (b * x + k) = 0` restricts `x` to 0 and 1 exactly when `a` and
/// `b` leave the remainder 1 and `k + 1` leaves none.
pub proof fn lemma_binary_restriction_remainders(
    c: ConstraintModel,
    prime: int,
    x: usize,
    a: int,
    b: int,
    k: int,
)
    requires
        x != 0,
        c.a == seq![(x, a)],
        c.b == seq![(0usize, k), (x, b)],
        c.c.len() == 0,
        prime > 1,
    ensures
        binary_restriction(c, prime) == (if a % prime == 1 && b % prime == 1 && (k + 1) % prime
            == 0 {
            Some(x)
        } else {
            None
        }),
{
    lemma_binary_restriction_shape(c, prime, x, a, b, k);
    lemma_congruent_remainders(a, 1, prime);
    lemma_congruent_remainders(b, 1, prime);
    lemma_divides_remainder(prime, k + 1);
    assert(1int % prime == 1) by (nonlinear_arith)
        requires
            prime > 1,
    ;
}

/// The signal that `constraint` restricts to 0 and 1, if it does so.
pub fn is_constraint_binary_restriction(constraint: &Constraint, field_prime: &BigInteger) -> (r:
    Option<SignalIndex>)
    requires
        constraint.wf(),
        field_prime.wf(),
    ensures
        r == binary_restriction(constraint@, field_prime.value()),
{
    if !constraint.c().is_empty() {
        return None;
    }
    if !constraint.has_constant_coefficient() {
        return None;
    }
    let signals = set_to_vec(&constraint.take_cloned_signals_ordered());
    proof {
        assert forall|s: usize| constraint@.signals() =~= set![s] implies signals@.len() == 1
            && signals@[0] == s by {
            assert(signals@.to_set().contains(s));
            assert(signals@.contains(s));
            if signals@.len() > 1 {
                assert(signals@.to_set().contains(signals@[0]));
                assert(signals@.to_set().contains(signals@[1]));
                assert(signals@[0] < signals@[1]);
            }
        }
    }
    if signals.len() != 1 {
        return None;
    }
    let signal = signals[0];
    proof {
        assert(constraint@.signals() =~= set![signal]) by {
            assert forall|s: usize| signals@.to_set().contains(s) implies s == signal by {
                assert(signals@.contains(s));
            }
            assert(signals@.contains(signals@[0]));
        }
        let s = choose|s: usize| constraint@.signals() =~= set![s];
        assert(s == signal);
    }
    let single;
    let double;
    if constraint.a().len() == 1 && constraint.b().len() == 2 {
        single = constraint.a();
        double = constraint.b();
    } else if constraint.b().len() == 1 && constraint.a().len() == 2 {
        single = constraint.b();
        double = constraint.a();
    } else {
        return None;
    }
    let one = BigInteger::from_usize(1);
    let minus_one = BigInteger::from_usize(0).sub(&one);
    match single.get(signal) {
        Some(coefficient) => {
            if !coefficient.is_congruent_to(&one, field_prime) {
                return None;
            }
        },
        None => { return None; },
    }
    match double.get(signal) {
        Some(coefficient) => {
            if !coefficient.is_congruent_to(&one, field_prime) {
                return None;
            }
        },
        None => { return None; },
    }
    match double.get(Constraint::constant_coefficient()) {
        Some(constant) => {
            if !constant.is_congruent_to(&minus_one, field_prime) {
                return None;
            }
        },
        None => { return None; },
    }
    Some(signal)
}

/// Some constraint of the system restricts `signal` to 0 and 1.
pub open spec fn is_binary_signal(constraints: Seq<ConstraintModel>, prime: int, signal: usize) -> bool {
    exists|i: int|
        0 <= i < constraints.len() && binary_restriction(#[trigger] constraints[i], prime) == Some(
            signal,
        )
}

/// The constraints that are not `0 = 0`, in order.
pub open spec fn non_empty_constraints(constraints: Seq<ConstraintModel>) -> Seq<ConstraintModel>
    decreases constraints.len(),
{
    if constraints.len() == 0 {
        Seq::empty()
    } else if constraints.last().is_empty() {
        non_empty_constraints(constraints.drop_last())
    } else {
        non_empty_constraints(constraints.drop_last()).push(constraints.last())
    }
}

/// Prepares a polynomial system for writing: marks the signals to fix that
/// a constraint restricts to 0 and 1, and drops the constraints `0 = 0`.
pub fn optimize_pol_system(
    pol_system: &PolynomialSystemFixedSignal,
    context: &InputDataContextView,
) -> (r: OptimizedPolynomialSystemFixedSignal)
    requires
        pol_system.wf(),
        context.field.wf(),
    ensures
        r.wf(),
        r.constraint_models() == non_empty_constraints(pol_system@.constraints),
        r.signals_to_fix@.dom() == pol_system@.signals_to_fix,
        forall|s: usize|
            pol_system@.signals_to_fix.contains(s) ==> (#[trigger] r.signals_to_fix@[s]).is_boolean
                == is_binary_signal(pol_system@.constraints, context.field.value(), s),
        r.template_name@ == pol_system@.template_name,
        r.component_name@ == pol_system@.component_name,
{
    let ghost models = pol_system@.constraints;
    let ghost prime = context.field.value();
    let mut binary_signals: BTreeSet<usize> = BTreeSet::new();
    let mut constraints: Vec<Constraint> = Vec::new();
    let mut i: usize = 0;
    while i < pol_system.constraints.len()
        invariant
            i <= models.len(),
            models == pol_system@.constraints,
            prime == context.field.value(),
            pol_system.wf(),
            context.field.wf(),
            forall|s: usize| binary_signals@.contains(s) <==> is_binary_signal(models.take(i as int), prime, s),
            forall|k: int| 0 <= k < constraints@.len() ==> (#[trigger] constraints@[k]).wf(),
            constraint_models(constraints@) == non_empty_constraints(
                models.take(i as int),
            ),
        decreases models.len() - i,
    {
        let constraint = &pol_system.constraints[i];
        let ghost kept = constraint_models(constraints@);
        let ghost binary_before = binary_signals@;
        assert(constraint@ == models[i as int]);
        match is_constraint_binary_restriction(constraint, &context.field) {
            Some(signal) => {
                binary_signals.insert(signal);
            },
            None => {},
        }
        if !constraint.is_empty() {
            constraints.push(constraint.clone());
        }
        proof {
            let next = models.take(i + 1);
            let prev = models.take(i as int);
            assert(next.drop_last() =~= prev);
            assert(next.last() == models[i as int]);
            assert(constraint_models(constraints@) =~= non_empty_constraints(next));
            assert forall|s: usize| binary_signals@.contains(s) <==> is_binary_signal(
                next,
                prime,
                s,
            ) by {
                if is_binary_signal(next, prime, s) {
                    let k = choose|k: int|
                        0 <= k < next.len() && binary_restriction(#[trigger] next[k], prime)
                            == Some(s);
                    if k < i {
                        assert(prev[k] == next[k]);
                        assert(is_binary_signal(prev, prime, s));
                    }
                }
                if binary_before.contains(s) {
                    let k = choose|k: int|
                        0 <= k < prev.len() && binary_restriction(#[trigger] prev[k], prime)
                            == Some(s);
                    assert(next[k] == prev[k]);
                }
                if binary_restriction(models[i as int], prime) == Some(s) {
                    assert(next[i as int] == models[i as int]);
                }
            }
        }
        i = i + 1;
    }
    assert(models.take(i as int) =~= models);

    let mut signals_to_fix: BTreeMap<usize, SignalToFixData> = BTreeMap::new();
    let signals = set_to_vec(&pol_system.signals_to_fix);
    let mut k: usize = 0;
    while k < signals.len()
        invariant
            k <= signals@.len(),
            forall|s: usize|
                signals_to_fix@.contains_key(s) <==> exists|m: int| 0 <= m < k && signals@[m] == s,
            forall|s: usize|
                signals_to_fix@.contains_key(s) ==> (#[trigger] signals_to_fix@[s]).is_boolean
                    == binary_signals@.contains(s),
        decreases signals@.len() - k,
    {
        let signal = signals[k];
        let is_boolean = binary_signals.contains(&signal);
        signals_to_fix.insert(signal, SignalToFixData { is_boolean });
        k = k + 1;
    }
    proof {
        assert forall|s: usize| signals_to_fix@.dom().contains(s)
            <==> pol_system@.signals_to_fix.contains(s) by {
            if pol_system@.signals_to_fix.contains(s) {
                assert(signals@.to_set().contains(s));
                assert(signals@.contains(s));
            }
            if exists|m: int| 0 <= m < signals@.len() && signals@[m] == s {
                assert(signals@.contains(s));
            }
        }
        assert(signals_to_fix@.dom() =~= pol_system@.signals_to_fix);
    }
    OptimizedPolynomialSystemFixedSignal {
        constraints,
        signals_to_fix,
        template_name: pol_system.template_name.clone(),
        component_name: pol_system.component_name.clone(),
    }
}

/// A coefficient as text: a residue above half of the prime is written as
/// the negative number that it stands for.
pub open spec fn coefficient_text(coefficient: int, prime: int) -> Seq<char> {
    if coefficient > half_towards_zero(prime) {
        "-"@ + decimal(prime - coefficient)
    } else {
        decimal(coefficient)
    }
}

/// The text of a coefficient.
pub fn coefficient_to_string(coeff: &BigInteger, prime_field: &BigInteger) -> (r: String)
    requires
        coeff.wf(),
        prime_field.wf(),
    ensures
        r@ == coefficient_text(coeff.value(), prime_field.value()),
{
    if coeff.exceeds_half_of(prime_field) {
        let mut r = String::from_str("-");
        r.append(prime_field.sub(coeff).to_string().as_str());
        r
    } else {
        coeff.to_string()
    }
}

/// The signal as the computer algebra system names it.
pub open spec fn indexed_name(signal: usize) -> Seq<char> {
    "x_"@ + decimal_nat(signal as nat)
}

/// The auxiliary variable that goes with a signal to fix.
pub open spec fn auxiliary_name(signal: usize) -> Seq<char> {
    "u_"@ + decimal_nat(signal as nat)
}

/// The signal as text.
pub open spec fn signal_text(
    context: &InputDataContextView,
    kind: SignalDisplayKind,
    signal: usize,
) -> Seq<char> {
    match kind {
        SignalDisplayKind::Name => context.signal_name_map@[signal]@,
        SignalDisplayKind::Index => indexed_name(signal),
    }
}

/// The text of a signal.
fn signal_to_string(context: &InputDataContextView, kind: SignalDisplayKind, signal: usize) -> (r:
    String)
    requires
        kind == SignalDisplayKind::Name ==> context.signal_name_map@.contains_key(signal),
    ensures
        r@ == signal_text(context, kind, signal),
{
    match kind {
        SignalDisplayKind::Name => context.signal_name_map.get(&signal).unwrap().clone(),
        SignalDisplayKind::Index => {
            let mut r = String::from_str("x_");
            r.append(usize_to_string(signal).as_str());
            r
        },
    }
}

/// A summand as text. The constant is its coefficient alone; a signal with
/// coefficient 1 is written bare, with the residue of -1 as its negative,
/// and otherwise with its coefficient before it.
pub open spec fn summand_text(
    context: &InputDataContextView,
    kind: SignalDisplayKind,
    summand: (usize, int),
) -> Seq<char> {
    let prime = context.field.value();
    if summand.0 == 0 {
        coefficient_text(summand.1, prime)
    } else if summand.1 == 1 {
        signal_text(context, kind, summand.0)
    } else if summand.1 == prime - 1 {
        "-"@ + signal_text(context, kind, summand.0)
    } else {
        coefficient_text(summand.1, prime) + "*"@ + signal_text(context, kind, summand.0)
    }
}

/// The sum so far with one more summand: a summand that begins with a
/// minus sign is subtracted without it.
pub open spec fn add_summand(sum: Seq<char>, next: Seq<char>) -> Seq<char> {
    if sum.len() == 0 {
        next
    } else if starts_with_minus(next) {
        sum + " - "@ + next.skip(1)
    } else {
        sum + " + "@ + next
    }
}

/// The summands of a term written as a sum, in order.
pub open spec fn sum_text(
    context: &InputDataContextView,
    kind: SignalDisplayKind,
    term: TermModel,
) -> Seq<char>
    decreases term.len(),
{
    if term.len() == 0 {
        Seq::empty()
    } else {
        add_summand(
            sum_text(context, kind, term.drop_last()),
            summand_text(context, kind, term.last()),
        )
    }
}

/// A linear term as text: `0` for the term without summands, else the sum
/// of its summands, in parentheses where that is asked for and the term has
/// more than one summand.
pub open spec fn linear_term_text(
    context: &InputDataContextView,
    kind: SignalDisplayKind,
    term: TermModel,
    surround_with_parenthesis: bool,
) -> Seq<char> {
    if term.len() == 0 {
        "0"@
    } else if surround_with_parenthesis && term.len() > 1 {
        "("@ + sum_text(context, kind, term) + ")"@
    } else {
        sum_text(context, kind, term)
    }
}

/// Every signal of the term has a name.
pub open spec fn term_named(context: &InputDataContextView, term: TermModel) -> bool {
    forall|i: int|
        0 <= i < term.len() && (#[trigger] term[i]).0 != 0
            ==> context.signal_name_map@.contains_key(term[i].0)
}

/// The text of a linear term.
pub fn linear_term_to_string(
    linear_term: &LinearTerm,
    context: &InputDataContextView,
    surround_with_parenthesis: bool,
    display_kind: SignalDisplayKind,
) -> (r: String)
    requires
        linear_term.wf(),
        context.field.wf(),
        display_kind == SignalDisplayKind::Name ==> term_named(context, linear_term.entries()),
    ensures
        r@ == linear_term_text(
            context,
            display_kind,
            linear_term.entries(),
            surround_with_parenthesis,
        ),
{
    if linear_term.is_empty() {
        return String::from_str("0");
    }
    let prime = &context.field;
    let minus_one = prime.sub(&BigInteger::from_usize(1));
    let ghost term = linear_term.entries();
    let mut sum = String::new();
    let mut i: usize = 0;
    while i < linear_term.len()
        invariant
            i <= term.len(),
            term == linear_term.entries(),
            linear_term.wf(),
            context.field.wf(),
            minus_one.wf(),
            minus_one.value() == context.field.value() - 1,
            display_kind == SignalDisplayKind::Name ==> term_named(context, term),
            sum@ == sum_text(context, display_kind, term.take(i as int)),
        decreases term.len() - i,
    {
        let signal = linear_term.signal_at(i);
        let coefficient = linear_term.coefficient_at(i);
        assert(term[i as int].0 == signal);
        let next = if signal == Constraint::constant_coefficient() {
            coefficient_to_string(coefficient, &context.field)
        } else {
            let name = signal_to_string(context, display_kind, signal);
            if coefficient.is_one() {
                name
            } else if coefficient.equals(&minus_one) {
                let mut text = String::from_str("-");
                text.append(name.as_str());
                text
            } else {
                let mut text = coefficient_to_string(coefficient, &context.field);
                text.append("*");
                text.append(name.as_str());
                text
            }
        };
        assert(next@ == summand_text(context, display_kind, term[i as int]));
        let ghost before = sum@;
        if sum.as_str().unicode_len() == 0 {
            sum = next;
        } else if has_leading_minus(next.as_str()) {
            sum.append(" - ");
            sum.append(without_first(next.as_str()).as_str());
        } else {
            sum.append(" + ");
            sum.append(next.as_str());
        }
        proof {
            let upto = term.take(i + 1);
            assert(upto.drop_last() =~= term.take(i as int));
            assert(upto.last() == term[i as int]);
            assert(sum@ == add_summand(before, next@));
        }
        i = i + 1;
    }
    assert(term.take(i as int) =~= term);
    if surround_with_parenthesis && linear_term.len() > 1 {
        let mut r = String::from_str("(");
        r.append(sum.as_str());
        r.append(")");
        r
    } else {
        sum
    }
}

/// A constraint as the text of a polynomial. A constraint without a
/// product is its linear part. Otherwise the two factors are multiplied and
/// the linear part, where there is one, is added, or subtracted where its
/// text begins with a minus sign.
pub open spec fn constraint_text(
    context: &InputDataContextView,
    kind: SignalDisplayKind,
    c: ConstraintModel,
) -> Seq<char> {
    if c.a.len() == 0 || c.b.len() == 0 {
        linear_term_text(context, kind, c.c, false)
    } else {
        let a = linear_term_text(context, kind, c.a, true);
        let b = linear_term_text(context, kind, c.b, true);
        let linear = linear_term_text(context, kind, c.c, false);
        if starts_with_minus(linear) {
            a + " * "@ + b + " - "@ + linear.skip(1)
        } else if c.c.len() == 0 {
            a + " * "@ + b
        } else {
            a + " * "@ + b + " + "@ + linear
        }
    }
}

/// Every signal of the constraint has a name.
pub open spec fn constraint_named(context: &InputDataContextView, c: ConstraintModel) -> bool {
    term_named(context, c.a) && term_named(context, c.b) && term_named(context, c.c)
}

/// The text of a constraint as a polynomial.
pub fn get_constraint_polynomial(
    constraint: &Constraint,
    context: &InputDataContextView,
    display_kind: SignalDisplayKind,
) -> (r: String)
    requires
        constraint.wf(),
        context.field.wf(),
        display_kind == SignalDisplayKind::Name ==> constraint_named(context, constraint@),
    ensures
        r@ == constraint_text(context, display_kind, constraint@),
{
    let a = constraint.a();
    let b = constraint.b();
    let c = constraint.c();

    if a.is_empty() || b.is_empty() {
        linear_term_to_string(c, context, false, display_kind)
    } else {
        let a_str = linear_term_to_string(a, context, true, display_kind);
        let b_str = linear_term_to_string(b, context, true, display_kind);
        let c_str = linear_term_to_string(c, context, false, display_kind);

        let mut r = a_str;
        r.append(" * ");
        r.append(b_str.as_str());
        if has_leading_minus(c_str.as_str()) {
            r.append(" - ");
            r.append(without_first(c_str.as_str()).as_str());
        } else if c.is_empty() {
        } else {
            r.append(" + ");
            r.append(c_str.as_str());
        }
        r
    }
}

/// The factor that forbids a signal its value in the witness. For a signal
/// restricted to 0 and 1 the factor vanishes at the other of the two
/// values. For any other signal an auxiliary variable `u` makes
/// `(x - w) * u - 1` vanish only where `x` differs from `w`.
pub open spec fn prohibition_factor(
    name: Seq<char>,
    signal: usize,
    witness: int,
    is_boolean: bool,
) -> Seq<char> {
    if is_boolean {
        "("@ + name + " - "@ + decimal(1 - witness) + ")"@
    } else {
        "(("@ + name + " - "@ + decimal(witness) + ")*"@ + auxiliary_name(signal) + " - 1)"@
    }
}

/// The factors of the prohibition polynomial for the given signals, in order.
pub open spec fn prohibition_factors(
    context: &InputDataContextView,
    kind: SignalDisplayKind,
    signals: Seq<usize>,
    data: Map<usize, SignalToFixData>,
) -> Seq<Seq<char>> {
    Seq::new(
        signals.len(),
        |i: int|
            prohibition_factor(
                signal_text(context, kind, signals[i]),
                signals[i],
                context.witness@[signals[i]].value(),
                data[signals[i]].is_boolean,
            ),
    )
}

/// The number of variables of the prohibition polynomial for the given
/// signals: one for a signal restricted to 0 and 1, two for any other.
pub open spec fn prohibition_variables(signals: Seq<usize>, data: Map<usize, SignalToFixData>) -> nat
    decreases signals.len(),
{
    if signals.len() == 0 {
        0
    } else {
        prohibition_variables(signals.drop_last(), data) + if data[signals.last()].is_boolean {
            1nat
        } else {
            2nat
        }
    }
}

/// The prohibition polynomial as text: the product of the factors of the
/// signals to fix in ascending order, or zero where there is none.
pub open spec fn prohibition_text(
    context: &InputDataContextView,
    kind: SignalDisplayKind,
    data: Map<usize, SignalToFixData>,
) -> Seq<char> {
    if data.dom() =~= Set::empty() {
        match kind {
            SignalDisplayKind::Name => "0"@,
            SignalDisplayKind::Index => "RingElem(R, 0)"@,
        }
    } else {
        joined(prohibition_factors(context, kind, sorted_keys(data.dom()), data), " * "@)
    }
}

/// The prohibition polynomial for the signals to fix.
pub fn get_prohibition_witness_polynomial(
    signals_to_fix: &BTreeMap<SignalIndex, SignalToFixData>,
    context: &InputDataContextView,
    display_kind: SignalDisplayKind,
) -> (r: ProhibitionPolynomial)
    requires
        context.numbers_wf(),
        forall|s: usize| signals_to_fix@.contains_key(s) ==> context.witness@.contains_key(s),
        display_kind == SignalDisplayKind::Name ==> forall|s: usize|
            signals_to_fix@.contains_key(s) ==> context.signal_name_map@.contains_key(s),
        2 * sorted_keys(signals_to_fix@.dom()).len() <= usize::MAX,
    ensures
        r.string@ == prohibition_text(context, display_kind, signals_to_fix@),
        r.num_vars == prohibition_variables(sorted_keys(signals_to_fix@.dom()), signals_to_fix@),
{
    let signals = map_keys(signals_to_fix);
    let ghost data = signals_to_fix@;
    proof {
        lemma_sorted_keys_of(signals@, data.dom());
    }
    if signals.len() == 0 {
        proof {
            assert forall|s: usize| !data.dom().contains(s) by {
                if data.dom().contains(s) {
                    assert(signals@.to_set().contains(s));
                    assert(signals@.contains(s));
                }
            }
            assert(data.dom() =~= Set::empty());
        }
        let text = match display_kind {
            SignalDisplayKind::Name => String::from_str("0"),
            SignalDisplayKind::Index => String::from_str("RingElem(R, 0)"),
        };
        return ProhibitionPolynomial { string: text, num_vars: 0 };
    }
    proof {
        assert(signals@.contains(signals@[0]));
        assert(data.dom().contains(signals@[0]));
    }
    let one = BigInteger::from_usize(1);
    let mut num_vars: usize = 0;
    let mut factors: Vec<String> = Vec::new();
    let ghost all = prohibition_factors(context, display_kind, signals@, data);
    let mut i: usize = 0;
    while i < signals.len()
        invariant
            i <= signals@.len(),
            2 * signals@.len() <= usize::MAX,
            data == signals_to_fix@,
            signals@.to_set() == data.dom(),
            context.numbers_wf(),
            one.wf(),
            one.value() == 1,
            forall|s: usize| data.contains_key(s) ==> context.witness@.contains_key(s),
            display_kind == SignalDisplayKind::Name ==> forall|s: usize|
                data.contains_key(s) ==> context.signal_name_map@.contains_key(s),
            all == prohibition_factors(context, display_kind, signals@, data),
            texts(factors@) == all.take(i as int),
            num_vars == prohibition_variables(signals@.take(i as int), data),
            num_vars <= 2 * i,
        decreases signals@.len() - i,
    {
        let signal = signals[i];
        proof {
            assert(signals@.contains(signal));
            assert(signals@.to_set().contains(signal));
        }
        let name = signal_to_string(context, display_kind, signal);
        let witness_value = context.witness.get(&signal).unwrap();
        let data_here = signals_to_fix.get(&signal).unwrap();
        let mut factor;
        if data_here.is_boolean {
            num_vars = num_vars + 1;
            factor = String::from_str("(");
            factor.append(name.as_str());
            factor.append(" - ");
            factor.append(one.sub(witness_value).to_string().as_str());
            factor.append(")");
        } else {
            num_vars = num_vars + 2;
            factor = String::from_str("((");
            factor.append(name.as_str());
            factor.append(" - ");
            factor.append(witness_value.to_string().as_str());
            factor.append(")*");
            let mut auxiliary = String::from_str("u_");
            auxiliary.append(usize_to_string(signal).as_str());
            factor.append(auxiliary.as_str());
            factor.append(" - 1)");
        }
        assert(factor@ == all[i as int]);
        let ghost before = texts(factors@);
        factors.push(factor);
        proof {
            assert(texts(factors@) =~= before.push(all[i as int]));
            assert(all.take(i + 1) =~= all.take(i as int).push(all[i as int]));
            let upto = signals@.take(i + 1);
            assert(upto.drop_last() =~= signals@.take(i as int));
            assert(upto.last() == signal);
        }
        i = i + 1;
    }
    proof {
        assert(all.take(i as int) =~= all);
        assert(signals@.take(i as int) =~= signals@);
        assert(!(data.dom() =~= Set::empty()));
    }
    let text = join_strings(&factors, " * ");
    ProhibitionPolynomial { string: text, num_vars }
}

/// An ascending sequence with the elements of `s` is the ascending order of `s`.
pub proof fn lemma_sorted_keys_of(v: Seq<usize>, s: Set<usize>)
    requires
        strictly_increasing(v),
        v.to_set() == s,
    ensures
        sorted_keys(s) == v,
{
    crate::signal_set::lemma_sorted_keys(v);
}

/// The signals that occur in some constraint of the list.
pub open spec fn system_signals(constraints: Seq<ConstraintModel>) -> Set<usize> {
    Set::new(
        |s: usize|
            exists|i: int| 0 <= i < constraints.len() && (#[trigger] constraints[i]).signals().contains(s),
    )
}

/// The names that the computer algebra system gives the signals, in order.
pub open spec fn indexed_names(signals: Seq<usize>) -> Seq<Seq<char>> {
    Seq::new(signals.len(), |i: int| indexed_name(signals[i]))
}

/// The auxiliary variables of the signals that are not restricted to 0 and
/// 1, in order.
pub open spec fn auxiliary_names(signals: Seq<usize>, data: Map<usize, SignalToFixData>) -> Seq<
    Seq<char>,
>
    decreases signals.len(),
{
    if signals.len() == 0 {
        Seq::empty()
    } else if data[signals.last()].is_boolean {
        auxiliary_names(signals.drop_last(), data)
    } else {
        auxiliary_names(signals.drop_last(), data).push(auxiliary_name(signals.last()))
    }
}

/// The variables of the ring of a system: the signals of its constraints
/// in ascending order, then the auxiliary variables of its prohibition
/// polynomial, in ascending order of their signals.
pub open spec fn variable_names(system: &OptimizedPolynomialSystemFixedSignal) -> Seq<Seq<char>> {
    indexed_names(sorted_keys(system_signals(system.constraint_models()))) + auxiliary_names(
        sorted_keys(system.signals_to_fix@.dom()),
        system.signals_to_fix@,
    )
}

/// The generators of the ideal of a system: its constraints in order, then
/// its prohibition polynomial.
pub open spec fn generator_texts(
    context: &InputDataContextView,
    system: &OptimizedPolynomialSystemFixedSignal,
) -> Seq<Seq<char>> {
    Seq::new(
        system.constraints@.len(),
        |i: int| constraint_text(context, SignalDisplayKind::Index, system.constraints@[i]@),
    ).push(prohibition_text(context, SignalDisplayKind::Index, system.signals_to_fix@))
}

/// The statement that has the computer algebra system print the line that
/// says `line`.
pub open spec fn print_statement(line: CasLine) -> Seq<char> {
    "println \""@ + line_text(line) + "\";\n"@
}

/// The line that reports the system with the given index as timed out.
pub open spec fn timeout_text(index: usize) -> Seq<char> {
    print_statement(CasLine::TimedOut(index))
}

/// The block that asks for the Groebner basis of an ideal and reports
/// whether `1` lies in it: that the system has many solutions if it does
/// not, that it has one if it does, and that it timed out if the basis was
/// not found in time.
pub open spec fn query_text(
    variables: Seq<char>,
    generators: Seq<char>,
    timeout: u32,
    index: usize,
) -> Seq<char> {
    "use R ::= F["@ + variables + "];\n\nI := ideal("@ + generators
        + ");\n\nTry\n    B := GBasisTimeout(I, "@ + decimal_nat(timeout as nat)
        + ");\n\n    If not(1 IsIn I) Then\n        "@ + print_statement(
        CasLine::ManySolutions(index),
    ) + "        exit;\n    Else;\n        "@ + print_statement(CasLine::Solved(index))
        + "    EndIf;\nUponError E Do\n    "@ + print_statement(CasLine::TimedOut(index))
        + "EndTry;\n"@
}

/// The number of variables of the prohibition polynomial of a system.
pub open spec fn system_prohibition_variables(system: &OptimizedPolynomialSystemFixedSignal) -> nat {
    prohibition_variables(sorted_keys(system.signals_to_fix@.dom()), system.signals_to_fix@)
}

/// The part of the script for one system. A system whose prohibition
/// polynomial has more variables than the options allow is reported as
/// timed out without being submitted.
pub open spec fn subscript_text(
    context: &InputDataContextView,
    system: &OptimizedPolynomialSystemFixedSignal,
    index: usize,
) -> Seq<char> {
    if system_prohibition_variables(system)
        > context.options.max_vars_prohibition_polynomial_before_timeout {
        timeout_text(index)
    } else {
        query_text(
            joined(variable_names(system), ", "@),
            joined(generator_texts(context, system), ",\n"@),
            context.options.groebner_cocoa_timeout_seconds,
            index,
        )
    }
}

/// The system can be written out: its constraints and the numbers of the
/// context are well formed, the witness has a value for each signal to
/// fix, and the number of variables fits a machine integer.
pub open spec fn can_emit(
    context: &InputDataContextView,
    system: &OptimizedPolynomialSystemFixedSignal,
) -> bool {
    &&& system.wf()
    &&& context.numbers_wf()
    &&& signals_to_fix_covered(context, system.signals_to_fix@)
}

/// The witness has a value for each signal to fix, and the number of
/// variables of the prohibition polynomial fits a machine integer.
pub open spec fn signals_to_fix_covered(
    context: &InputDataContextView,
    signals_to_fix: Map<usize, SignalToFixData>,
) -> bool {
    &&& forall|s: usize| signals_to_fix.contains_key(s) ==> context.witness@.contains_key(s)
    &&& 2 * sorted_keys(signals_to_fix.dom()).len() <= usize::MAX
}

/// Whether the witness has a value for each signal to fix, and the number
/// of variables of the prohibition polynomial fits a machine integer.
pub fn check_signals_to_fix_covered(
    context: &InputDataContextView,
    signals_to_fix: &BTreeMap<SignalIndex, SignalToFixData>,
) -> (r: bool)
    ensures
        r == signals_to_fix_covered(context, signals_to_fix@),
{
    let keys = map_keys(signals_to_fix);
    proof {
        lemma_sorted_keys_of(keys@, signals_to_fix@.dom());
    }
    if keys.len() > usize::MAX / 2 {
        return false;
    }
    let r = all_keys(&keys, context.witness);
    proof {
        if r {
            assert forall|s: usize| signals_to_fix@.contains_key(s) implies context.witness@.contains_key(
                s,
            ) by {
                assert(signals_to_fix@.dom().contains(s));
                assert(keys@.to_set().contains(s));
                assert(keys@.contains(s));
                let i = choose|i: int| 0 <= i < keys@.len() && keys@[i] == s;
                assert(context.witness@.contains_key(keys@[i]));
            }
        } else {
            let i = choose|i: int|
                0 <= i < keys@.len() && !context.witness@.contains_key(#[trigger] keys@[i]);
            assert(keys@.contains(keys@[i]));
            assert(keys@.to_set().contains(keys@[i]));
            assert(signals_to_fix@.contains_key(keys@[i]));
        }
    }
    r
}

/// Whether every signal of the term has a name.
fn check_term_named(context: &InputDataContextView, term: &LinearTerm) -> (r: bool)
    ensures
        r == term_named(context, term.entries()),
{
    let mut i: usize = 0;
    while i < term.len()
        invariant
            i <= term.entries().len(),
            forall|k: int|
                0 <= k < i && (#[trigger] term.entries()[k]).0 != 0
                    ==> context.signal_name_map@.contains_key(term.entries()[k].0),
        decreases term.entries().len() - i,
    {
        let signal = term.signal_at(i);
        if signal != 0 && !context.signal_name_map.contains_key(&signal) {
            assert(term.entries()[i as int].0 == signal);
            return false;
        }
        i = i + 1;
    }
    true
}

/// Whether every signal of the system has a name.
pub fn check_system_named(
    context: &InputDataContextView,
    system: &OptimizedPolynomialSystemFixedSignal,
) -> (r: bool)
    requires
        system.wf(),
    ensures
        r == system_named(context, system),
{
    let mut i: usize = 0;
    while i < system.constraints.len()
        invariant
            i <= system.constraints@.len(),
            system.wf(),
            forall|k: int|
                0 <= k < i ==> constraint_named(context, (#[trigger] system.constraints@[k])@),
        decreases system.constraints@.len() - i,
    {
        let constraint = &system.constraints[i];
        if !check_term_named(context, constraint.a()) || !check_term_named(
            context,
            constraint.b(),
        ) || !check_term_named(context, constraint.c()) {
            assert(!constraint_named(context, system.constraints@[i as int]@));
            return false;
        }
        i = i + 1;
    }
    let keys = map_keys(&system.signals_to_fix);
    let r = all_keys(&keys, context.signal_name_map);
    proof {
        if r {
            assert forall|s: usize| system.signals_to_fix@.contains_key(s) implies context.signal_name_map@.contains_key(
                s,
            ) by {
                assert(system.signals_to_fix@.dom().contains(s));
                assert(keys@.to_set().contains(s));
                assert(keys@.contains(s));
                let k = choose|k: int| 0 <= k < keys@.len() && keys@[k] == s;
                assert(context.signal_name_map@.contains_key(keys@[k]));
            }
        } else {
            let k = choose|k: int|
                0 <= k < keys@.len() && !context.signal_name_map@.contains_key(#[trigger] keys@[k]);
            assert(keys@.contains(keys@[k]));
            assert(keys@.to_set().contains(keys@[k]));
            assert(system.signals_to_fix@.contains_key(keys@[k]));
        }
    }
    r
}

/// The signals of the constraints of a system.
fn used_signals(system: &OptimizedPolynomialSystemFixedSignal) -> (r: BTreeSet<usize>)
    requires
        system.wf(),
    ensures
        r@ == system_signals(system.constraint_models()),
{
    let ghost models = system.constraint_models();
    let mut used: BTreeSet<usize> = BTreeSet::new();
    let mut i: usize = 0;
    while i < system.constraints.len()
        invariant
            i <= models.len(),
            models == system.constraint_models(),
            system.wf(),
            used@ == system_signals(models.take(i as int)),
        decreases models.len() - i,
    {
        let signals = system.constraints[i].take_cloned_signals_ordered();
        let ghost before = used@;
        insert_all(&mut used, &signals);
        proof {
            let prev = models.take(i as int);
            let next = models.take(i + 1);
            assert(signals@ == models[i as int].signals());
            assert forall|s: usize| used@.contains(s) <==> system_signals(next).contains(s) by {
                if system_signals(next).contains(s) {
                    let k = choose|k: int|
                        0 <= k < next.len() && (#[trigger] next[k]).signals().contains(s);
                    if k < i {
                        assert(prev[k] == next[k]);
                        assert(system_signals(prev).contains(s));
                    }
                }
                if before.contains(s) {
                    let k = choose|k: int|
                        0 <= k < prev.len() && (#[trigger] prev[k]).signals().contains(s);
                    assert(next[k] == prev[k]);
                }
                if signals@.contains(s) {
                    assert(next[i as int] == models[i as int]);
                }
            }
            assert(used@ =~= system_signals(next));
        }
        i = i + 1;
    }
    assert(models.take(i as int) =~= models);
    used
}

/// The names of the variables of the ring of a system.
fn variable_strings(system: &OptimizedPolynomialSystemFixedSignal) -> (r: Vec<String>)
    requires
        system.wf(),
    ensures
        texts(r@) == variable_names(system),
{
    let used = used_signals(system);
    let signals = set_to_vec(&used);
    proof {
        lemma_sorted_keys_of(signals@, used@);
    }
    let mut names: Vec<String> = Vec::new();
    let ghost first = indexed_names(signals@);
    let mut i: usize = 0;
    while i < signals.len()
        invariant
            i <= signals@.len(),
            first == indexed_names(signals@),
            texts(names@) == first.take(i as int),
        decreases signals@.len() - i,
    {
        let mut name = String::from_str("x_");
        name.append(usize_to_string(signals[i]).as_str());
        let ghost before = texts(names@);
        names.push(name);
        proof {
            assert(texts(names@) =~= before.push(first[i as int]));
            assert(first.take(i + 1) =~= first.take(i as int).push(first[i as int]));
        }
        i = i + 1;
    }
    assert(first.take(i as int) =~= first);

    let keys = map_keys(&system.signals_to_fix);
    let ghost data = system.signals_to_fix@;
    proof {
        lemma_sorted_keys_of(keys@, data.dom());
    }
    let mut k: usize = 0;
    while k < keys.len()
        invariant
            k <= keys@.len(),
            data == system.signals_to_fix@,
            keys@.to_set() == data.dom(),
            texts(names@) == first + auxiliary_names(keys@.take(k as int), data),
        decreases keys@.len() - k,
    {
        let key = keys[k];
        proof {
            assert(keys@.contains(key));
            assert(keys@.to_set().contains(key));
            let upto = keys@.take(k + 1);
            assert(upto.drop_last() =~= keys@.take(k as int));
            assert(upto.last() == key);
        }
        let data_here = system.signals_to_fix.get(&key).unwrap();
        if !data_here.is_boolean {
            let mut name = String::from_str("u_");
            name.append(usize_to_string(key).as_str());
            let ghost before = texts(names@);
            names.push(name);
            assert(texts(names@) =~= before.push(auxiliary_name(key)));
            assert(texts(names@) =~= first + auxiliary_names(keys@.take(k + 1), data));
        }
        k = k + 1;
    }
    assert(keys@.take(k as int) =~= keys@);
    names
}

/// The part of the script that settles the system with index
/// `pol_system_idx`.
pub fn get_cocoa_subscript(
    pol_system: &OptimizedPolynomialSystemFixedSignal,
    context: &InputDataContextView,
    pol_system_idx: PolSystemIndex,
) -> (r: String)
    requires
        can_emit(context, pol_system),
    ensures
        r@ == subscript_text(context, pol_system, pol_system_idx),
{
    let prohibition_polynomial = get_prohibition_witness_polynomial(
        &pol_system.signals_to_fix,
        context,
        SignalDisplayKind::Index,
    );
    let var_limit = context.options.max_vars_prohibition_polynomial_before_timeout;

    if prohibition_polynomial.num_vars > var_limit as usize {
        return print_statement_text("TIMEOUT: ", pol_system_idx);
    }
    let variables = join_strings(&variable_strings(pol_system), ", ");

    let mut generators: Vec<String> = Vec::new();
    let ghost all = generator_texts(context, pol_system);
    let mut i: usize = 0;
    while i < pol_system.constraints.len()
        invariant
            i <= pol_system.constraints@.len(),
            pol_system.wf(),
            context.field.wf(),
            all == generator_texts(context, pol_system),
            texts(generators@) == all.take(i as int),
        decreases pol_system.constraints@.len() - i,
    {
        let text = get_constraint_polynomial(
            &pol_system.constraints[i],
            context,
            SignalDisplayKind::Index,
        );
        let ghost before = texts(generators@);
        generators.push(text);
        proof {
            assert(texts(generators@) =~= before.push(all[i as int]));
            assert(all.take(i + 1) =~= all.take(i as int).push(all[i as int]));
        }
        i = i + 1;
    }
    let ghost before = texts(generators@);
    generators.push(prohibition_polynomial.string);
    proof {
        assert(texts(generators@) =~= before.push(all[i as int]));
        assert(texts(generators@) =~= all);
    }
    let polynomials = join_strings(&generators, ",\n");
    let timeout = context.options.groebner_cocoa_timeout_seconds;

    let mut r = String::from_str("use R ::= F[");
    r.append(variables.as_str());
    r.append("];\n\nI := ideal(");
    r.append(polynomials.as_str());
    r.append(");\n\nTry\n    B := GBasisTimeout(I, ");
    r.append(usize_to_string(timeout as usize).as_str());
    r.append(");\n\n    If not(1 IsIn I) Then\n        ");
    r.append(print_statement_text("ERROR: ", pol_system_idx).as_str());
    r.append("        exit;\n    Else;\n        ");
    r.append(print_statement_text("OK: ", pol_system_idx).as_str());
    r.append("    EndIf;\nUponError E Do\n    ");
    r.append(print_statement_text("TIMEOUT: ", pol_system_idx).as_str());
    r.append("EndTry;\n");
    r
}

/// The statement that has the computer algebra system print `word`
/// followed by the index of a system.
fn print_statement_text(word: &str, index: usize) -> (r: String)
    ensures
        r@ == "println \""@ + (word@ + decimal_nat(index as nat)) + "\";\n"@,
{
    let mut line = String::from_str(word);
    line.append(usize_to_string(index).as_str());
    let mut r = String::from_str("println \"");
    r.append(line.as_str());
    r.append("\";\n");
    r
}

/// The parts of the script for the systems, in order.
pub open spec fn subscript_texts(
    context: &InputDataContextView,
    systems: Seq<OptimizedPolynomialSystemFixedSignal>,
) -> Seq<Seq<char>> {
    Seq::new(systems.len(), |i: int| subscript_text(context, &systems[i], i as usize))
}

/// The whole script: the field, the part of each system, and the line that
/// reports the end.
pub open spec fn script_text(
    context: &InputDataContextView,
    systems: Seq<OptimizedPolynomialSystemFixedSignal>,
) -> Seq<char> {
    "p := "@ + decimal(context.field.value()) + ";\nuse F ::= ZZ/(p);\n\n"@ + joined(
        subscript_texts(context, systems),
        "\n"@,
    ) + "\n\nprintln \"FINISHED\";\n"@
}

/// The script that settles the systems, in order.
pub fn generate_cocoa_script(
    pol_systems: &Vec<OptimizedPolynomialSystemFixedSignal>,
    context: &InputDataContextView,
) -> (r: String)
    requires
        context.field.wf(),
        forall|i: int| 0 <= i < pol_systems@.len() ==> can_emit(context, &#[trigger] pol_systems@[i]),
    ensures
        r@ == script_text(context, pol_systems@),
{
    let mut parts: Vec<String> = Vec::new();
    let ghost all = subscript_texts(context, pol_systems@);
    let mut i: usize = 0;
    while i < pol_systems.len()
        invariant
            i <= pol_systems@.len(),
            forall|k: int|
                0 <= k < pol_systems@.len() ==> can_emit(context, &#[trigger] pol_systems@[k]),
            all == subscript_texts(context, pol_systems@),
            texts(parts@) == all.take(i as int),
        decreases pol_systems@.len() - i,
    {
        let part = get_cocoa_subscript(&pol_systems[i], context, i);
        let ghost before = texts(parts@);
        parts.push(part);
        proof {
            assert(texts(parts@) =~= before.push(all[i as int]));
            assert(all.take(i + 1) =~= all.take(i as int).push(all[i as int]));
        }
        i = i + 1;
    }
    assert(all.take(i as int) =~= all);
    let pol_systems_str = join_strings(&parts, "\n");

    let mut r = String::from_str("p := ");
    r.append(context.field.to_string().as_str());
    r.append(";\nuse F ::= ZZ/(p);\n\n");
    r.append(pol_systems_str.as_str());
    r.append("\n\nprintln \"FINISHED\";\n");
    r
}

/// A polynomial system written for people.
pub struct ReadablePolynomialSystem {
    /// Each constraint as an equation.
    pub constraints: Vec<String>,
    /// The names of the signals to fix, in ascending order of signal.
    pub signals_to_fix: Vec<String>,
    /// The names of those of them that are restricted to 0 and 1.
    pub binary_signals: Vec<String>,
    /// The prohibition polynomial as an equation.
    pub prohibition_constraint: String,
}

/// The constraints of a system as equations with names for the signals.
pub open spec fn readable_constraints(
    context: &InputDataContextView,
    system: &OptimizedPolynomialSystemFixedSignal,
) -> Seq<Seq<char>> {
    Seq::new(
        system.constraints@.len(),
        |i: int|
            constraint_text(context, SignalDisplayKind::Name, system.constraints@[i]@) + " = 0"@,
    )
}

/// The names of the given signals.
pub open spec fn signal_names(context: &InputDataContextView, signals: Seq<usize>) -> Seq<Seq<char>> {
    Seq::new(signals.len(), |i: int| context.signal_name_map@[signals[i]]@)
}

/// The names of those of the given signals that are restricted to 0 and 1.
pub open spec fn binary_signal_names(
    context: &InputDataContextView,
    signals: Seq<usize>,
    data: Map<usize, SignalToFixData>,
) -> Seq<Seq<char>>
    decreases signals.len(),
{
    if signals.len() == 0 {
        Seq::empty()
    } else if data[signals.last()].is_boolean {
        binary_signal_names(context, signals.drop_last(), data).push(
            context.signal_name_map@[signals.last()]@,
        )
    } else {
        binary_signal_names(context, signals.drop_last(), data)
    }
}

/// Every signal of the system has a name.
pub open spec fn system_named(
    context: &InputDataContextView,
    system: &OptimizedPolynomialSystemFixedSignal,
) -> bool {
    &&& forall|i: int|
        0 <= i < system.constraints@.len() ==> constraint_named(
            context,
            (#[trigger] system.constraints@[i])@,
        )
    &&& forall|s: usize| system.signals_to_fix@.contains_key(s) ==> context.signal_name_map@.contains_key(s)
}

/// The polynomial system written for people: its constraints, what it has
/// to fix, and its prohibition polynomial, with names for the signals.
pub fn display_polynomial_system_readable(
    pol_system: &OptimizedPolynomialSystemFixedSignal,
    context: &InputDataContextView,
) -> (r: ReadablePolynomialSystem)
    requires
        can_emit(context, pol_system),
        system_named(context, pol_system),
    ensures
        texts(r.constraints@) == readable_constraints(context, pol_system),
        texts(r.signals_to_fix@) == signal_names(
            context,
            sorted_keys(pol_system.signals_to_fix@.dom()),
        ),
        texts(r.binary_signals@) == binary_signal_names(
            context,
            sorted_keys(pol_system.signals_to_fix@.dom()),
            pol_system.signals_to_fix@,
        ),
        r.prohibition_constraint@ == prohibition_text(
            context,
            SignalDisplayKind::Name,
            pol_system.signals_to_fix@,
        ) + " = 0"@,
{
    let mut constraints: Vec<String> = Vec::new();
    let ghost all = readable_constraints(context, pol_system);
    let mut i: usize = 0;
    while i < pol_system.constraints.len()
        invariant
            i <= pol_system.constraints@.len(),
            pol_system.wf(),
            context.field.wf(),
            system_named(context, pol_system),
            all == readable_constraints(context, pol_system),
            texts(constraints@) == all.take(i as int),
        decreases pol_system.constraints@.len() - i,
    {
        let mut text = get_constraint_polynomial(
            &pol_system.constraints[i],
            context,
            SignalDisplayKind::Name,
        );
        text.append(" = 0");
        let ghost before = texts(constraints@);
        constraints.push(text);
        proof {
            assert(texts(constraints@) =~= before.push(all[i as int]));
            assert(all.take(i + 1) =~= all.take(i as int).push(all[i as int]));
        }
        i = i + 1;
    }
    assert(all.take(i as int) =~= all);

    let keys = map_keys(&pol_system.signals_to_fix);
    let ghost data = pol_system.signals_to_fix@;
    proof {
        lemma_sorted_keys_of(keys@, data.dom());
    }
    let mut names: Vec<String> = Vec::new();
    let mut binary: Vec<String> = Vec::new();
    let ghost wanted = signal_names(context, keys@);
    let mut k: usize = 0;
    while k < keys.len()
        invariant
            k <= keys@.len(),
            data == pol_system.signals_to_fix@,
            keys@.to_set() == data.dom(),
            system_named(context, pol_system),
            wanted == signal_names(context, keys@),
            texts(names@) == wanted.take(k as int),
            texts(binary@) == binary_signal_names(context, keys@.take(k as int), data),
        decreases keys@.len() - k,
    {
        let key = keys[k];
        proof {
            assert(keys@.contains(key));
            assert(keys@.to_set().contains(key));
            let upto = keys@.take(k + 1);
            assert(upto.drop_last() =~= keys@.take(k as int));
            assert(upto.last() == key);
        }
        let name = context.signal_name_map.get(&key).unwrap();
        let ghost before = texts(names@);
        names.push(name.clone());
        proof {
            assert(texts(names@) =~= before.push(wanted[k as int]));
            assert(wanted.take(k + 1) =~= wanted.take(k as int).push(wanted[k as int]));
        }
        if pol_system.signals_to_fix.get(&key).unwrap().is_boolean {
            let ghost binary_before = texts(binary@);
            binary.push(name.clone());
            assert(texts(binary@) =~= binary_before.push(name@));
        }
        k = k + 1;
    }
    proof {
        assert(wanted.take(k as int) =~= wanted);
        assert(keys@.take(k as int) =~= keys@);
    }
    let prohibition = get_prohibition_witness_polynomial(
        &pol_system.signals_to_fix,
        context,
        SignalDisplayKind::Name,
    );
    let mut prohibition_constraint = prohibition.string;
    prohibition_constraint.append(" = 0");
    ReadablePolynomialSystem {
        constraints,
        signals_to_fix: names,
        binary_signals: binary,
        prohibition_constraint,
    }
}

/// The line that says which system is being worked on.
pub open spec fn progress_text(
    systems: Seq<OptimizedPolynomialSystemFixedSignal>,
    index: int,
) -> Seq<char> {
    "Fixing polynomial system "@ + decimal_nat((index + 1) as nat) + "/"@ + decimal_nat(
        systems.len(),
    ) + " ("@ + systems[index].component_name@ + ": "@ + systems[index].template_name@ + ")"@
}

/// The line that says that the system with index `index` is being worked on.
pub fn display_ith_pol_system_progress(
    pol_systems: &Vec<OptimizedPolynomialSystemFixedSignal>,
    index: usize,
) -> (r: String)
    requires
        index < pol_systems@.len(),
    ensures
        r@ == progress_text(pol_systems@, index as int),
{
    let pol_system = &pol_systems[index];
    let total = pol_systems.len();
    let mut r = String::from_str("Fixing polynomial system ");
    r.append(usize_to_string(index + 1).as_str());
    r.append("/");
    r.append(usize_to_string(total).as_str());
    r.append(" (");
    r.append(pol_system.component_name.as_str());
    r.append(": ");
    r.append(pol_system.template_name.as_str());
    r.append(")");
    r
}

/// A table of components with their templates.
pub type ModuleTable = Seq<(Seq<char>, Seq<char>)>;

/// The table with the template of a component set: put in its place in
/// the order of a dictionary where the table does not have the component,
/// in place of the old template where it has.
pub open spec fn table_inserted(table: ModuleTable, component: Seq<char>, template: Seq<char>) -> ModuleTable
    decreases table.len(),
{
    if table.len() == 0 {
        seq![(component, template)]
    } else if precedes(table.last().0, component) {
        table.push((component, template))
    } else if table.last().0 == component {
        table.drop_last().push((component, template))
    } else {
        table_inserted(table.drop_last(), component, template).push(table.last())
    }
}

/// The components of the systems that the first `count` indices name,
/// each once and in the order of a dictionary, each with the template of
/// the last of those systems that belongs to it.
pub open spec fn module_table(
    systems: Seq<PolynomialSystemModel>,
    indices: Seq<usize>,
    count: nat,
) -> ModuleTable
    decreases count,
{
    if count == 0 {
        Seq::empty()
    } else {
        let system = systems[indices[count - 1] as int];
        table_inserted(
            module_table(systems, indices, (count - 1) as nat),
            system.component_name,
            system.template_name,
        )
    }
}

/// The rows of a table as text.
pub open spec fn table_rows(table: ModuleTable) -> Seq<Seq<char>> {
    Seq::new(table.len(), |i: int| table[i].0 + ": "@ + table[i].1)
}

/// The line that tells which components the systems that failed belong to.
pub open spec fn unverified_text(
    systems: Seq<PolynomialSystemModel>,
    indices: Seq<usize>,
    reason: Seq<char>,
) -> Seq<char> {
    let table = module_table(systems, indices, indices.len());
    "Failed to verify due to "@ + reason + " "@ + decimal_nat(indices.len())
        + " polynomial systems in "@ + decimal_nat(table.len()) + " components: ["@ + joined(
        table_rows(table),
        ", "@,
    ) + "]"@
}

/// The table as mathematics sees it.
pub open spec fn table_model(table: Seq<(String, String)>) -> ModuleTable {
    table.map_values(|row: (String, String)| (row.0@, row.1@))
}

/// Sets the template of a component in a table.
fn insert_row(table: &mut Vec<(String, String)>, component: String, template: String)
    ensures
        table_model(final(table)@) == table_inserted(
            table_model(old(table)@),
            component@,
            template@,
        ),
    decreases old(table)@.len(),
{
    let ghost before = table_model(table@);
    let n = table.len();
    if n == 0 {
        table.push((component, template));
        assert(table_model(table@) =~= table_inserted(before, component@, template@));
    } else {
        assert(before.last().0 == table@[n - 1].0@);
        if text_precedes(table[n - 1].0.as_str(), component.as_str()) {
            table.push((component, template));
            assert(table_model(table@) =~= table_inserted(before, component@, template@));
        } else if table[n - 1].0 == component {
            table.pop();
            table.push((component, template));
            assert(table_model(table@) =~= table_inserted(before, component@, template@));
        } else {
            let last = table.pop().unwrap();
            assert(table_model(table@) =~= before.drop_last());
            let ghost name = component@;
            let ghost kind = template@;
            insert_row(table, component, template);
            table.push(last);
            assert(table_model(table@) =~= table_inserted(before, name, kind));
        }
    }
}

/// The line that tells which components the systems that failed for the
/// given reason belong to.
pub fn display_unverified_modules(
    pol_systems: &Vec<PolynomialSystemFixedSignal>,
    unverified_indices: &Vec<usize>,
    unverified_reason: &str,
) -> (r: String)
    requires
        forall|i: int|
            0 <= i < unverified_indices@.len() ==> (#[trigger] unverified_indices@[i])
                < pol_systems@.len(),
    ensures
        r@ == unverified_text(
            system_models(pol_systems@),
            unverified_indices@,
            unverified_reason@,
        ),
{
    let ghost systems = system_models(pol_systems@);
    let mut table: Vec<(String, String)> = Vec::new();
    assert(table_model(table@) =~= module_table(systems, unverified_indices@, 0));
    let mut i: usize = 0;
    while i < unverified_indices.len()
        invariant
            i <= unverified_indices@.len(),
            systems == system_models(pol_systems@),
            forall|k: int|
                0 <= k < unverified_indices@.len() ==> (#[trigger] unverified_indices@[k])
                    < pol_systems@.len(),
            table_model(table@) == module_table(systems, unverified_indices@, i as nat),
        decreases unverified_indices@.len() - i,
    {
        let index = unverified_indices[i];
        let system = &pol_systems[index];
        assert(systems[index as int] == system@);
        insert_row(&mut table, system.component_name.clone(), system.template_name.clone());
        i = i + 1;
    }
    let mut rows: Vec<String> = Vec::new();
    let ghost wanted = table_rows(table_model(table@));
    let mut k: usize = 0;
    while k < table.len()
        invariant
            k <= table@.len(),
            wanted == table_rows(table_model(table@)),
            texts(rows@) == wanted.take(k as int),
        decreases table@.len() - k,
    {
        let mut row = table[k].0.clone();
        row.append(": ");
        row.append(table[k].1.as_str());
        let ghost before = texts(rows@);
        rows.push(row);
        proof {
            assert(table_model(table@)[k as int] == (table@[k as int].0@, table@[k as int].1@));
            assert(texts(rows@) =~= before.push(wanted[k as int]));
            assert(wanted.take(k + 1) =~= wanted.take(k as int).push(wanted[k as int]));
        }
        k = k + 1;
    }
    assert(wanted.take(k as int) =~= wanted);
    let mut r = String::from_str("Failed to verify due to ");
    r.append(unverified_reason);
    r.append(" ");
    r.append(usize_to_string(unverified_indices.len()).as_str());
    r.append(" polynomial systems in ");
    r.append(usize_to_string(table.len()).as_str());
    r.append(" components: [");
    r.append(join_strings(&rows, ", ").as_str());
    r.append("]");
    r
}

} // verus!
