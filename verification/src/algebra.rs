//! Rank-1 constraints `A * B + C = 0` over a prime field.
//!
//! A linear term is a sum of signals with coefficients. It is held as a list
//! of summands in ascending order of signal index, each signal at most once.
//! The index `0` is reserved: its summand is the constant of the term.

use crate::numbers::BigInteger;
use std::collections::BTreeSet;
use vstd::prelude::*;

verus! {

/// The index of a signal, unique within the circuit.
pub type SignalIndex = usize;

/// The index of a constraint in the storage of the circuit.
pub type ConstraintIndex = usize;

/// The index of a component.
pub type ComponentIndex = usize;

/// A linear term as mathematics sees it: signals with their coefficients,
/// in ascending order of signal.
pub type TermModel = Seq<(usize, int)>;

/// The signals of a term go strictly upwards.
pub open spec fn signals_increasing(e: TermModel) -> bool {
    forall|i: int, j: int| 0 <= i < j < e.len() ==> e[i].0 < e[j].0
}

/// The term has a summand for `signal`.
pub open spec fn term_contains(e: TermModel, signal: usize) -> bool {
    exists|i: int| 0 <= i < e.len() && (#[trigger] e[i]).0 == signal
}

/// The coefficient that `signal` has in the term; zero where it has none.
pub open spec fn term_coefficient(e: TermModel, signal: usize) -> int
    decreases e.len(),
{
    if e.len() == 0 {
        0
    } else if e.last().0 == signal {
        e.last().1
    } else {
        term_coefficient(e.drop_last(), signal)
    }
}

/// The signals of a term: the indices of its summands but for the constant.
pub open spec fn term_signals(e: TermModel) -> Set<usize> {
    Set::new(|s: usize| s != 0 && term_contains(e, s))
}

/// A term without a summand for `signal` gives it the coefficient zero.
pub proof fn lemma_absent_coefficient(e: TermModel, signal: usize)
    requires
        !term_contains(e, signal),
    ensures
        term_coefficient(e, signal) == 0,
    decreases e.len(),
{
    if e.len() > 0 {
        assert(e[e.len() - 1].0 != signal);
        assert forall|i: int| 0 <= i < e.drop_last().len() implies (#[trigger] e.drop_last()[i]).0
            != signal by {
            assert(e[i].0 != signal);
        }
        lemma_absent_coefficient(e.drop_last(), signal);
    }
}

/// In an ordered term the summand at position `i` is the one that gives its
/// signal a coefficient.
pub proof fn lemma_present_coefficient(e: TermModel, i: int)
    requires
        signals_increasing(e),
        0 <= i < e.len(),
    ensures
        term_coefficient(e, e[i].0) == e[i].1,
    decreases e.len(),
{
    if i < e.len() - 1 {
        assert(e[i].0 < e[e.len() - 1].0);
        assert(e.drop_last()[i] == e[i]);
        lemma_present_coefficient(e.drop_last(), i);
    }
}

/// A term in order holds a signal below its last one exactly when the term
/// without its last summand holds it.
pub proof fn lemma_contains_without_last(e: TermModel, signal: usize)
    requires
        signals_increasing(e),
        e.len() > 0,
    ensures
        term_contains(e.drop_last(), signal) <==> term_contains(e, signal) && signal != e.last().0,
{
    let init = e.drop_last();
    if term_contains(init, signal) {
        let i = choose|i: int| 0 <= i < init.len() && (#[trigger] init[i]).0 == signal;
        assert(e[i] == init[i]);
        assert(e[i].0 < e[e.len() - 1].0);
    }
    if term_contains(e, signal) && signal != e.last().0 {
        let i = choose|i: int| 0 <= i < e.len() && (#[trigger] e[i]).0 == signal;
        assert(init[i] == e[i]);
    }
}

/// Two terms in order that have summands for the same signals and give
/// every signal the same coefficient are the same term.
pub proof fn lemma_ordered_terms_equal(a: TermModel, b: TermModel)
    requires
        signals_increasing(a),
        signals_increasing(b),
        forall|t: usize| term_contains(a, t) == term_contains(b, t),
        forall|t: usize| term_coefficient(a, t) == term_coefficient(b, t),
    ensures
        a == b,
    decreases a.len(),
{
    if a.len() == 0 {
        if b.len() > 0 {
            assert(term_contains(b, b[0].0));
            assert(term_contains(a, b[0].0));
        }
        assert(a =~= b);
    } else {
        let last = a.len() - 1;
        assert(term_contains(a, a[last].0));
        assert(term_contains(b, a[last].0));
        let j = choose|j: int| 0 <= j < b.len() && (#[trigger] b[j]).0 == a[last].0;
        let end = b.len() - 1;
        assert(term_contains(b, b[end].0));
        assert(term_contains(a, b[end].0));
        let i = choose|i: int| 0 <= i < a.len() && (#[trigger] a[i]).0 == b[end].0;
        if i < last {
            assert(a[i].0 < a[last].0);
        }
        if j < end {
            assert(b[j].0 < b[end].0);
        }
        assert(a[last].0 == b[end].0);
        lemma_present_coefficient(a, last);
        lemma_present_coefficient(b, end);
        assert(a[last] == b[end]);
        let x = a.drop_last();
        let y = b.drop_last();
        assert forall|t: usize| term_contains(x, t) == term_contains(y, t) by {
            lemma_contains_without_last(a, t);
            lemma_contains_without_last(b, t);
        }
        assert forall|t: usize| term_coefficient(x, t) == term_coefficient(y, t) by {
            if t == a[last].0 {
                lemma_contains_without_last(a, t);
                lemma_contains_without_last(b, t);
                lemma_absent_coefficient(x, t);
                lemma_absent_coefficient(y, t);
            } else {
                assert(term_coefficient(a, t) == term_coefficient(x, t));
                assert(term_coefficient(b, t) == term_coefficient(y, t));
            }
        }
        lemma_ordered_terms_equal(x, y);
        assert(a =~= x.push(a[last]));
        assert(b =~= y.push(b[end]));
    }
}

/// The term with the summand for `signal` set to `value`: put in its place
/// in the order where the term has none for the signal, in place of the
/// old one where it has.
pub open spec fn term_inserted(e: TermModel, signal: usize, value: int) -> TermModel
    decreases e.len(),
{
    if e.len() == 0 {
        seq![(signal, value)]
    } else if e.last().0 < signal {
        e.push((signal, value))
    } else if e.last().0 == signal {
        e.drop_last().push((signal, value))
    } else {
        term_inserted(e.drop_last(), signal, value).push(e.last())
    }
}

/// Setting a summand keeps a term in order. Afterwards the signal has the
/// new coefficient, the term has a summand for it and for the signals that
/// it had summands for before, and every other signal has the coefficient
/// that it had.
pub proof fn lemma_term_inserted(e: TermModel, signal: usize, value: int)
    requires
        signals_increasing(e),
    ensures
        signals_increasing(term_inserted(e, signal, value)),
        term_inserted(e, signal, value).len() > 0,
        forall|t: usize| #[trigger]
            term_contains(term_inserted(e, signal, value), t) <==> t == signal || term_contains(
                e,
                t,
            ),
        term_coefficient(term_inserted(e, signal, value), signal) == value,
        forall|t: usize|
            t != signal ==> #[trigger] term_coefficient(term_inserted(e, signal, value), t)
                == term_coefficient(e, t),
    decreases e.len(),
{
    let r = term_inserted(e, signal, value);
    if e.len() == 0 {
        assert(r[0].0 == signal);
        assert(r.drop_last() =~= e);
        assert forall|t: usize| #[trigger] term_contains(r, t) <==> t == signal || term_contains(
            e,
            t,
        ) by {
            if term_contains(r, t) {
                let i = choose|i: int| 0 <= i < r.len() && (#[trigger] r[i]).0 == t;
            }
        }
    } else if e.last().0 < signal {
        assert(r.drop_last() =~= e);
        assert(r[r.len() - 1].0 == signal);
        assert forall|t: usize| #[trigger] term_contains(r, t) <==> t == signal || term_contains(
            e,
            t,
        ) by {
            if term_contains(r, t) {
                let i = choose|i: int| 0 <= i < r.len() && (#[trigger] r[i]).0 == t;
                if i < e.len() {
                    assert(e[i].0 == t);
                }
            }
            if term_contains(e, t) {
                let i = choose|i: int| 0 <= i < e.len() && (#[trigger] e[i]).0 == t;
                assert(r[i].0 == t);
            }
        }
    } else if e.last().0 == signal {
        let init = e.drop_last();
        assert(r.drop_last() =~= init);
        assert(r[r.len() - 1].0 == signal);
        assert(e[e.len() - 1].0 == signal);
        assert forall|i: int, j: int| 0 <= i < j < r.len() implies r[i].0 < r[j].0 by {
            assert(e[i].0 < e[j].0);
        }
        assert forall|t: usize| #[trigger] term_contains(r, t) <==> t == signal || term_contains(
            e,
            t,
        ) by {
            if term_contains(r, t) {
                let i = choose|i: int| 0 <= i < r.len() && (#[trigger] r[i]).0 == t;
                if i < init.len() {
                    assert(e[i].0 == t);
                }
            }
            if term_contains(e, t) {
                let i = choose|i: int| 0 <= i < e.len() && (#[trigger] e[i]).0 == t;
                assert(r[i].0 == t);
            }
        }
    } else {
        let init = e.drop_last();
        let before = term_inserted(init, signal, value);
        let top = e[e.len() - 1];
        assert(top == e.last());
        assert forall|i: int, j: int| 0 <= i < j < init.len() implies init[i].0 < init[j].0 by {
            assert(e[i].0 < e[j].0);
        }
        lemma_term_inserted(init, signal, value);
        assert(r.drop_last() =~= before);
        assert(r.last() == top);
        assert forall|t: usize| term_contains(init, t) implies t < top.0 by {
            let k = choose|k: int| 0 <= k < init.len() && (#[trigger] init[k]).0 == t;
            assert(init[k] == e[k]);
            assert(e[k].0 < e[e.len() - 1].0);
        }
        assert forall|i: int, j: int| 0 <= i < j < r.len() implies r[i].0 < r[j].0 by {
            if j == r.len() - 1 {
                assert(r[i] == before[i]);
                assert(term_contains(before, before[i].0));
                if before[i].0 != signal {
                    assert(term_contains(init, before[i].0));
                }
            } else {
                assert(r[i] == before[i]);
                assert(r[j] == before[j]);
                assert(before[i].0 < before[j].0);
            }
        }
        assert forall|t: usize| #[trigger] term_contains(r, t) <==> t == signal || term_contains(
            e,
            t,
        ) by {
            if term_contains(r, t) {
                let i = choose|i: int| 0 <= i < r.len() && (#[trigger] r[i]).0 == t;
                if i < before.len() {
                    assert(r[i] == before[i]);
                    assert(term_contains(before, t));
                    if t != signal {
                        assert(term_contains(init, t));
                        let k = choose|k: int| 0 <= k < init.len() && (#[trigger] init[k]).0 == t;
                        assert(init[k] == e[k]);
                        assert(e[k].0 == t);
                    }
                } else {
                    assert(e[e.len() - 1].0 == t);
                }
            }
            if term_contains(e, t) {
                let i = choose|i: int| 0 <= i < e.len() && (#[trigger] e[i]).0 == t;
                if i < init.len() {
                    assert(init[i] == e[i]);
                    assert(term_contains(init, t));
                    assert(term_contains(before, t));
                    let k = choose|k: int| 0 <= k < before.len() && (#[trigger] before[k]).0 == t;
                    assert(r[k] == before[k]);
                    assert(r[k].0 == t);
                } else {
                    assert(r[r.len() - 1].0 == t);
                }
            }
            if t == signal {
                assert(term_contains(before, signal));
                let k = choose|k: int| 0 <= k < before.len() && (#[trigger] before[k]).0 == signal;
                assert(r[k] == before[k]);
                assert(r[k].0 == signal);
            }
        }
        assert forall|t: usize| t != signal implies #[trigger] term_coefficient(r, t)
            == term_coefficient(e, t) by {
            if t != top.0 {
                assert(term_coefficient(before, t) == term_coefficient(init, t));
            }
        }
    }
}

/// A sum of signals with coefficients.
pub struct LinearTerm {
    summands: Vec<(usize, BigInteger)>,
}

impl LinearTerm {
    /// The summands, in ascending order of signal.
    pub closed spec fn entries(&self) -> TermModel {
        Seq::new(
            self.summands@.len(),
            |i: int| (self.summands@[i].0, self.summands@[i].1.value()),
        )
    }

    /// Every coefficient is held in canonical form.
    pub closed spec fn coefficients_wf(&self) -> bool {
        forall|i: int| 0 <= i < self.summands@.len() ==> (#[trigger] self.summands@[i]).1.wf()
    }

    /// The summands are in order and the coefficients in canonical form.
    pub open spec fn wf(&self) -> bool {
        &&& self.coefficients_wf()
        &&& signals_increasing(self.entries())
    }

    /// The term without summands.
    pub fn new() -> (r: LinearTerm)
        ensures
            r.wf(),
            r.entries() == Seq::<(usize, int)>::empty(),
    {
        let r = LinearTerm { summands: Vec::new() };
        assert(r.entries() =~= Seq::<(usize, int)>::empty());
        r
    }

    /// The term with the given summands. `None` unless their signals go
    /// strictly upwards.
    pub fn from_sorted(summands: Vec<(usize, BigInteger)>) -> (r: Option<LinearTerm>)
        requires
            forall|i: int| 0 <= i < summands@.len() ==> (#[trigger] summands@[i]).1.wf(),
        ensures
            r is Some <==> forall|i: int, j: int|
                0 <= i < j < summands@.len() ==> summands@[i].0 < summands@[j].0,
            r matches Some(t) ==> {
                &&& t.wf()
                &&& t.entries().len() == summands@.len()
                &&& forall|i: int|
                    0 <= i < summands@.len() ==> #[trigger] t.entries()[i] == (
                        summands@[i].0,
                        summands@[i].1.value(),
                    )
            },
    {
        let n = summands.len();
        let mut k: usize = 1;
        while k < n
            invariant
                1 <= k,
                n == summands@.len(),
                forall|i: int, j: int| 0 <= i < j < k && j < n ==> summands@[i].0 < summands@[j].0,
            decreases n - k,
        {
            if summands[k - 1].0 >= summands[k].0 {
                return None;
            }
            assert forall|i: int, j: int| 0 <= i < j < k + 1 && j < n implies summands@[i].0
                < summands@[j].0 by {
                if j == k {
                    if i < k - 1 {
                        assert(summands@[i].0 < summands@[k - 1].0);
                    }
                }
            }
            k = k + 1;
        }
        Some(LinearTerm { summands })
    }

    /// Sets the coefficient of `signal`.
    pub fn insert(&mut self, signal: usize, coefficient: BigInteger)
        requires
            old(self).wf(),
            coefficient.wf(),
        ensures
            final(self).wf(),
            final(self).entries() == term_inserted(
                old(self).entries(),
                signal,
                coefficient.value(),
            ),
        decreases old(self).entries().len(),
    {
        let ghost before = self.entries();
        proof {
            lemma_term_inserted(before, signal, coefficient.value());
        }
        let n = self.summands.len();
        if n == 0 {
            self.summands.push((signal, coefficient));
            assert(self.entries() =~= term_inserted(before, signal, coefficient.value()));
        } else {
            let last_signal = self.summands[n - 1].0;
            assert(before.last().0 == last_signal);
            if last_signal < signal {
                self.summands.push((signal, coefficient));
                assert(self.entries() =~= term_inserted(before, signal, coefficient.value()));
            } else if last_signal == signal {
                self.summands.pop();
                self.summands.push((signal, coefficient));
                assert(self.entries() =~= term_inserted(before, signal, coefficient.value()));
            } else {
                let last = self.summands.pop().unwrap();
                assert(self.entries() =~= before.drop_last());
                assert forall|i: int, j: int|
                    0 <= i < j < self.entries().len() implies self.entries()[i].0
                    < self.entries()[j].0 by {
                    assert(before[i].0 < before[j].0);
                }
                self.insert(signal, coefficient);
                self.summands.push(last);
                assert(self.entries() =~= term_inserted(before, signal, coefficient.value()));
            }
        }
    }

    /// The number of summands.
    pub fn len(&self) -> (r: usize)
        ensures
            r == self.entries().len(),
    {
        self.summands.len()
    }

    /// Whether the term has no summand.
    pub fn is_empty(&self) -> (r: bool)
        ensures
            r == (self.entries().len() == 0),
    {
        self.summands.len() == 0
    }

    /// The signal of the summand at position `i`.
    pub fn signal_at(&self, i: usize) -> (r: usize)
        requires
            i < self.entries().len(),
        ensures
            r == self.entries()[i as int].0,
    {
        self.summands[i].0
    }

    /// The coefficient of the summand at position `i`.
    pub fn coefficient_at(&self, i: usize) -> (r: &BigInteger)
        requires
            self.wf(),
            i < self.entries().len(),
        ensures
            r.wf(),
            r.value() == self.entries()[i as int].1,
    {
        &self.summands[i].1
    }

    /// The coefficient of `signal`, where the term has a summand for it.
    pub fn get(&self, signal: usize) -> (r: Option<&BigInteger>)
        requires
            self.wf(),
        ensures
            r is Some <==> term_contains(self.entries(), signal),
            r matches Some(c) ==> c.wf() && c.value() == term_coefficient(self.entries(), signal),
    {
        let mut i: usize = 0;
        while i < self.summands.len()
            invariant
                i <= self.summands@.len(),
                self.wf(),
                forall|k: int| 0 <= k < i ==> (#[trigger] self.entries()[k]).0 != signal,
            decreases self.summands@.len() - i,
        {
            if self.summands[i].0 == signal {
                proof {
                    assert(self.entries()[i as int].0 == signal);
                    lemma_present_coefficient(self.entries(), i as int);
                }
                return Some(&self.summands[i].1);
            }
            i = i + 1;
        }
        None
    }

    /// Whether the term has a summand for `signal`.
    pub fn contains_key(&self, signal: usize) -> (r: bool)
        requires
            self.wf(),
        ensures
            r == term_contains(self.entries(), signal),
    {
        self.get(signal).is_some()
    }

    /// A copy of the term.
    pub fn clone(&self) -> (r: LinearTerm)
        requires
            self.wf(),
        ensures
            r.wf(),
            r.entries() == self.entries(),
    {
        let mut summands: Vec<(usize, BigInteger)> = Vec::new();
        let mut i: usize = 0;
        while i < self.summands.len()
            invariant
                i <= self.summands@.len(),
                summands@.len() == i,
                forall|k: int| 0 <= k < i ==> #[trigger] summands@[k] == self.summands@[k],
            decreases self.summands@.len() - i,
        {
            summands.push((self.summands[i].0, self.summands[i].1.clone()));
            i = i + 1;
        }
        let r = LinearTerm { summands };
        assert(r.entries() =~= self.entries());
        r
    }
}

/// A constraint as mathematics sees it.
pub struct ConstraintModel {
    pub a: TermModel,
    pub b: TermModel,
    pub c: TermModel,
}

impl ConstraintModel {
    /// One of the two factors is missing, so that no product is left.
    pub open spec fn is_linear(self) -> bool {
        self.a.len() == 0 || self.b.len() == 0
    }

    /// The constraint `0 = 0`.
    pub open spec fn is_empty(self) -> bool {
        self.a.len() == 0 && self.b.len() == 0 && self.c.len() == 0
    }

    /// One of the three terms has a constant.
    pub open spec fn has_constant_coefficient(self) -> bool {
        term_contains(self.a, 0) || term_contains(self.b, 0) || term_contains(self.c, 0)
    }

    /// The signals that occur in the constraint.
    pub open spec fn signals(self) -> Set<usize> {
        term_signals(self.a) + term_signals(self.b) + term_signals(self.c)
    }

    /// The same constraint with its two factors exchanged.
    pub open spec fn swapped(self) -> ConstraintModel {
        ConstraintModel { a: self.b, b: self.a, c: self.c }
    }
}

/// The constraint `A * B + C = 0`.
pub struct Constraint {
    a: LinearTerm,
    b: LinearTerm,
    c: LinearTerm,
}

impl View for Constraint {
    type V = ConstraintModel;

    closed spec fn view(&self) -> ConstraintModel {
        ConstraintModel { a: self.a.entries(), b: self.b.entries(), c: self.c.entries() }
    }
}

/// Adds to `signals` the signals of `term`.
fn collect_signals(term: &LinearTerm, signals: &mut BTreeSet<usize>)
    requires
        term.wf(),
    ensures
        final(signals)@ == old(signals)@ + term_signals(term.entries()),
{
    let mut i: usize = 0;
    let ghost e = term.entries();
    while i < term.len()
        invariant
            i <= e.len(),
            e == term.entries(),
            forall|s: usize|
                signals@.contains(s) <==> old(signals)@.contains(s) || (s != 0 && exists|k: int|
                    0 <= k < i && (#[trigger] e[k]).0 == s),
        decreases e.len() - i,
    {
        let s = term.signal_at(i);
        if s != 0 {
            signals.insert(s);
        }
        i = i + 1;
    }
    assert(signals@ =~= old(signals)@ + term_signals(e));
}

impl Constraint {
    /// The three terms are well formed.
    pub closed spec fn wf(&self) -> bool {
        self.a.wf() && self.b.wf() && self.c.wf()
    }

    /// The terms of a well-formed constraint are in order.
    pub proof fn lemma_wf_ordered(&self)
        requires
            self.wf(),
        ensures
            signals_increasing(self@.a),
            signals_increasing(self@.b),
            signals_increasing(self@.c),
    {
    }

    /// The index that stands for the constant of a term.
    pub fn constant_coefficient() -> (r: usize)
        ensures
            r == 0,
    {
        0
    }

    /// The constraint `a * b + c = 0`.
    pub fn new(a: LinearTerm, b: LinearTerm, c: LinearTerm) -> (r: Constraint)
        requires
            a.wf(),
            b.wf(),
            c.wf(),
        ensures
            r.wf(),
            r@ == (ConstraintModel { a: a.entries(), b: b.entries(), c: c.entries() }),
    {
        Constraint { a, b, c }
    }

    /// The first factor.
    pub fn a(&self) -> (r: &LinearTerm)
        requires
            self.wf(),
        ensures
            r.wf(),
            r.entries() == self@.a,
    {
        &self.a
    }

    /// The second factor.
    pub fn b(&self) -> (r: &LinearTerm)
        requires
            self.wf(),
        ensures
            r.wf(),
            r.entries() == self@.b,
    {
        &self.b
    }

    /// The linear part.
    pub fn c(&self) -> (r: &LinearTerm)
        requires
            self.wf(),
        ensures
            r.wf(),
            r.entries() == self@.c,
    {
        &self.c
    }

    /// Whether no product is left in the constraint.
    pub fn is_linear(&self) -> (r: bool)
        ensures
            r == self@.is_linear(),
    {
        self.a.is_empty() || self.b.is_empty()
    }

    /// Whether the constraint is `0 = 0`.
    pub fn is_empty(&self) -> (r: bool)
        ensures
            r == self@.is_empty(),
    {
        self.a.is_empty() && self.b.is_empty() && self.c.is_empty()
    }

    /// Whether one of the three terms has a constant.
    pub fn has_constant_coefficient(&self) -> (r: bool)
        requires
            self.wf(),
        ensures
            r == self@.has_constant_coefficient(),
    {
        self.a.contains_key(0) || self.b.contains_key(0) || self.c.contains_key(0)
    }

    /// The signals that occur in the constraint.
    pub fn take_cloned_signals_ordered(&self) -> (r: BTreeSet<usize>)
        requires
            self.wf(),
        ensures
            r@ == self@.signals(),
    {
        let mut signals: BTreeSet<usize> = BTreeSet::new();
        collect_signals(&self.a, &mut signals);
        collect_signals(&self.b, &mut signals);
        collect_signals(&self.c, &mut signals);
        assert(signals@ =~= self@.signals());
        signals
    }

    /// A copy of the constraint.
    pub fn clone(&self) -> (r: Constraint)
        requires
            self.wf(),
        ensures
            r.wf(),
            r@ == self@,
    {
        Constraint { a: self.a.clone(), b: self.b.clone(), c: self.c.clone() }
    }
}

/// The views of the constraints.
pub open spec fn constraint_models(constraints: Seq<Constraint>) -> Seq<ConstraintModel> {
    constraints.map_values(|c: Constraint| c@)
}

/// The constraints of a circuit, each known by its position.
pub struct ConstraintStorage {
    constraints: Vec<Constraint>,
}

impl View for ConstraintStorage {
    type V = Seq<ConstraintModel>;

    closed spec fn view(&self) -> Seq<ConstraintModel> {
        Seq::new(self.constraints@.len(), |i: int| self.constraints@[i]@)
    }
}

impl ConstraintStorage {
    /// Every constraint is well formed.
    pub closed spec fn wf(&self) -> bool {
        forall|i: int| 0 <= i < self.constraints@.len() ==> (#[trigger] self.constraints@[i]).wf()
    }

    /// The storage without constraints.
    pub fn new() -> (r: ConstraintStorage)
        ensures
            r.wf(),
            r@.len() == 0,
    {
        ConstraintStorage { constraints: Vec::new() }
    }

    /// Appends a constraint and returns its index.
    pub fn add_constraint(&mut self, constraint: Constraint) -> (id: usize)
        requires
            old(self).wf(),
            constraint.wf(),
        ensures
            final(self).wf(),
            id == old(self)@.len(),
            final(self)@ == old(self)@.push(constraint@),
    {
        let id = self.constraints.len();
        self.constraints.push(constraint);
        assert(self@ =~= old(self)@.push(constraint@));
        id
    }

    /// The number of constraints.
    pub fn len(&self) -> (r: usize)
        ensures
            r == self@.len(),
    {
        self.constraints.len()
    }

    /// The constraint with index `id`, where there is one.
    pub fn read_constraint(&self, id: usize) -> (r: Option<&Constraint>)
        requires
            self.wf(),
        ensures
            r is Some <==> id < self@.len(),
            r matches Some(c) ==> c.wf() && c@ == self@[id as int],
    {
        if id < self.constraints.len() {
            Some(&self.constraints[id])
        } else {
            None
        }
    }
}

} // verus!
