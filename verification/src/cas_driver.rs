//! The conversation with the computer algebra system.
//!
//! The system answers the script line by line: `OK: N`, `ERROR: N` or
//! `TIMEOUT: N` for the polynomial system with index `N`, then `FINISHED`.
//! A session takes the lines one at a time and says what to do next. It
//! does no input or output itself.

use crate::numbers::{decimal_nat, lemma_decimal_nat_round_trip, usize_to_string};
use crate::text::{has_prefix, index_of_text, parse_index, same_text, strip_prefix};
use vstd::prelude::*;
use vstd::string::*;

verus! {

/// What a line of the computer algebra system says.
#[derive(Clone, Copy, PartialEq, Eq, Structural, Debug)]
pub enum CasLine {
    /// The system with this index has one solution only.
    Solved(usize),
    /// The system with this index may have many solutions.
    ManySolutions(usize),
    /// The system with this index was given up.
    TimedOut(usize),
    /// Every system was dealt with.
    Finished,
}

/// Where a session stands.
#[derive(Clone, Copy, PartialEq, Eq, Structural, Debug)]
pub enum SessionState {
    /// Lines are awaited.
    Running,
    /// The last line was read and the verdict is known.
    Finished,
    /// A line was not what the protocol allows.
    Failed,
}

/// What the caller is to do after a line.
#[derive(Clone, Copy, PartialEq, Eq, Structural, Debug)]
pub enum CasReaction {
    /// Read on. Where a system is named, it is the one now being worked on.
    Continue(Option<usize>),
    /// Stop reading: the run is over, with success or without.
    Done(bool),
    /// Stop reading and end the computer algebra system: the line breaks
    /// the protocol.
    Abort,
}

/// The meaning of a line, where it has one.
pub open spec fn line_meaning(line: Seq<char>) -> Option<CasLine> {
    if has_prefix(line, "OK: "@) {
        match index_of_text(line.skip("OK: "@.len() as int)) {
            Some(n) => Some(CasLine::Solved(n)),
            None => None,
        }
    } else if has_prefix(line, "ERROR: "@) {
        match index_of_text(line.skip("ERROR: "@.len() as int)) {
            Some(n) => Some(CasLine::ManySolutions(n)),
            None => None,
        }
    } else if has_prefix(line, "TIMEOUT: "@) {
        match index_of_text(line.skip("TIMEOUT: "@.len() as int)) {
            Some(n) => Some(CasLine::TimedOut(n)),
            None => None,
        }
    } else if line == "FINISHED"@ {
        Some(CasLine::Finished)
    } else {
        None
    }
}

/// Reads a line of the computer algebra system.
pub fn parse_cas_line(line: &str) -> (r: Option<CasLine>)
    ensures
        r == line_meaning(line@),
{
    match strip_prefix(line, "OK: ") {
        Some(rest) => {
            return match parse_index(rest.as_str()) {
                Some(n) => Some(CasLine::Solved(n)),
                None => None,
            };
        },
        None => {},
    }
    match strip_prefix(line, "ERROR: ") {
        Some(rest) => {
            return match parse_index(rest.as_str()) {
                Some(n) => Some(CasLine::ManySolutions(n)),
                None => None,
            };
        },
        None => {},
    }
    match strip_prefix(line, "TIMEOUT: ") {
        Some(rest) => {
            return match parse_index(rest.as_str()) {
                Some(n) => Some(CasLine::TimedOut(n)),
                None => None,
            };
        },
        None => {},
    }
    if same_text(line, "FINISHED") {
        Some(CasLine::Finished)
    } else {
        None
    }
}

/// A session as mathematics sees it.
#[verifier::ext_equal]
pub struct SessionModel {
    /// The number of systems that were submitted.
    pub total: usize,
    /// The systems reported to have many solutions, in the order reported.
    pub many_solutions: Seq<usize>,
    /// The systems reported as timed out, in the order reported.
    pub timed_outs: Seq<usize>,
    pub state: SessionState,
}

/// The session at its start.
pub open spec fn initial_session(total: usize) -> SessionModel {
    SessionModel {
        total,
        many_solutions: Seq::empty(),
        timed_outs: Seq::empty(),
        state: SessionState::Running,
    }
}

/// The number that the line gives is below the greatest machine integer,
/// so that the system can be told by its place, counted from one.
pub open spec fn report_fits(line: CasLine) -> bool {
    match line {
        CasLine::Solved(n) => n < usize::MAX,
        CasLine::ManySolutions(n) => n < usize::MAX,
        CasLine::TimedOut(n) => n < usize::MAX,
        CasLine::Finished => true,
    }
}

/// The session after a line. Every report on a system is taken, whatever
/// number it gives: a report of failure is added to its list. A line
/// without meaning and any line after the end of the run make the session
/// fail.
pub open spec fn after_line(session: SessionModel, line: Option<CasLine>) -> SessionModel {
    if session.state != SessionState::Running {
        SessionModel { state: SessionState::Failed, ..session }
    } else {
        match line {
            Some(CasLine::Solved(_)) => session,
            Some(CasLine::ManySolutions(n)) => SessionModel {
                many_solutions: session.many_solutions.push(n),
                ..session
            },
            Some(CasLine::TimedOut(n)) => SessionModel {
                timed_outs: session.timed_outs.push(n),
                ..session
            },
            Some(CasLine::Finished) => SessionModel { state: SessionState::Finished, ..session },
            None => SessionModel { state: SessionState::Failed, ..session },
        }
    }
}

/// The run succeeded: it is over and no system was reported to have many
/// solutions or as timed out.
pub open spec fn succeeded(session: SessionModel) -> bool {
    &&& session.state == SessionState::Finished
    &&& session.many_solutions.len() == 0
    &&& session.timed_outs.len() == 0
}

/// The system that is worked on after the one with index `n` is done.
pub open spec fn next_system(n: usize, total: usize) -> Option<usize> {
    if n + 1 < total {
        Some((n + 1) as usize)
    } else {
        None
    }
}

/// What the caller is to do after a line that took the session from
/// `before` to `after`.
pub open spec fn reaction_to(
    before: SessionModel,
    line: Option<CasLine>,
    after: SessionModel,
) -> CasReaction {
    match after.state {
        SessionState::Failed => CasReaction::Abort,
        SessionState::Finished => CasReaction::Done(succeeded(after)),
        SessionState::Running => match line {
            Some(CasLine::Solved(n)) => CasReaction::Continue(next_system(n, before.total)),
            Some(CasLine::ManySolutions(n)) => CasReaction::Continue(next_system(n, before.total)),
            Some(CasLine::TimedOut(n)) => CasReaction::Continue(next_system(n, before.total)),
            _ => CasReaction::Continue(None),
        },
    }
}

/// The session after a run of lines.
pub open spec fn after_lines(session: SessionModel, lines: Seq<Option<CasLine>>) -> SessionModel
    decreases lines.len(),
{
    if lines.len() == 0 {
        session
    } else {
        after_line(after_lines(session, lines.drop_last()), lines.last())
    }
}

/// The line reports on a system.
pub open spec fn is_report(line: Option<CasLine>) -> bool {
    match line {
        Some(CasLine::Solved(_)) => true,
        Some(CasLine::ManySolutions(_)) => true,
        Some(CasLine::TimedOut(_)) => true,
        _ => false,
    }
}

/// The line reports that a system was not shown to have one solution only.
pub open spec fn is_failure_report(line: Option<CasLine>) -> bool {
    line matches Some(CasLine::ManySolutions(_)) || line matches Some(CasLine::TimedOut(_))
}

/// Reports on systems, in any number and order, keep the session
/// running. Lists of failures grow only by reports of failure.
pub proof fn lemma_reports_keep_running(total: usize, reports: Seq<Option<CasLine>>)
    requires
        forall|i: int| 0 <= i < reports.len() ==> is_report(#[trigger] reports[i]),
    ensures
        after_lines(initial_session(total), reports).state == SessionState::Running,
        after_lines(initial_session(total), reports).total == total,
        (after_lines(initial_session(total), reports).many_solutions.len() == 0 && after_lines(
            initial_session(total),
            reports,
        ).timed_outs.len() == 0) <==> forall|i: int|
            0 <= i < reports.len() ==> !is_failure_report(#[trigger] reports[i]),
    decreases reports.len(),
{
    if reports.len() > 0 {
        let before = reports.drop_last();
        assert forall|i: int| 0 <= i < before.len() implies is_report(#[trigger] before[i]) by {
            assert(before[i] == reports[i]);
        }
        lemma_reports_keep_running(total, before);
        assert(is_report(reports[reports.len() - 1]));
        let session = after_lines(initial_session(total), before);
        if forall|i: int| 0 <= i < reports.len() ==> !is_failure_report(#[trigger] reports[i]) {
            assert forall|i: int| 0 <= i < before.len() implies !is_failure_report(
                #[trigger] before[i],
            ) by {
                assert(before[i] == reports[i]);
            }
            assert(!is_failure_report(reports[reports.len() - 1]));
        }
        if session.many_solutions.len() == 0 && session.timed_outs.len() == 0
            && !is_failure_report(reports.last()) {
            assert forall|i: int| 0 <= i < reports.len() implies !is_failure_report(
                #[trigger] reports[i],
            ) by {
                if i < before.len() {
                    assert(before[i] == reports[i]);
                }
            }
        }
    }
}

/// The protocol: any run of reports on systems, in any order, followed by
/// the line that reports the end, is accepted. The session is
/// then over, and it succeeded exactly when there was no report of failure.
pub proof fn lemma_protocol_accepts(total: usize, reports: Seq<Option<CasLine>>)
    requires
        forall|i: int| 0 <= i < reports.len() ==> is_report(#[trigger] reports[i]),
    ensures
        after_lines(initial_session(total), reports.push(Some(CasLine::Finished))).state
            == SessionState::Finished,
        succeeded(after_lines(initial_session(total), reports.push(Some(CasLine::Finished))))
            <==> forall|i: int| 0 <= i < reports.len() ==> !is_failure_report(#[trigger] reports[i]),
{
    lemma_reports_keep_running(total, reports);
    let lines = reports.push(Some(CasLine::Finished));
    assert(lines.drop_last() =~= reports);
    assert(lines.last() == Some(CasLine::Finished));
}

/// A session that is over or has failed accepts no further line.
pub proof fn lemma_nothing_after_the_end(session: SessionModel, line: Option<CasLine>)
    requires
        session.state != SessionState::Running,
    ensures
        after_line(session, line).state == SessionState::Failed,
{
}

/// The state of a conversation with the computer algebra system.
pub struct CasSession {
    total: usize,
    many_solutions: Vec<usize>,
    timed_outs: Vec<usize>,
    state: SessionState,
}

impl View for CasSession {
    type V = SessionModel;

    closed spec fn view(&self) -> SessionModel {
        SessionModel {
            total: self.total,
            many_solutions: self.many_solutions@,
            timed_outs: self.timed_outs@,
            state: self.state,
        }
    }
}

impl CasSession {
    /// The session for a script with `total` systems.
    pub fn new(total: usize) -> (r: CasSession)
        ensures
            r@ == initial_session(total),
    {
        CasSession {
            total,
            many_solutions: Vec::new(),
            timed_outs: Vec::new(),
            state: SessionState::Running,
        }
    }

    /// Where the session stands.
    pub fn state(&self) -> (r: SessionState)
        ensures
            r == self@.state,
    {
        self.state
    }

    /// The systems reported to have many solutions so far.
    pub fn many_solutions(&self) -> (r: &Vec<usize>)
        ensures
            r@ == self@.many_solutions,
    {
        &self.many_solutions
    }

    /// The systems reported as timed out so far.
    pub fn timed_outs(&self) -> (r: &Vec<usize>)
        ensures
            r@ == self@.timed_outs,
    {
        &self.timed_outs
    }

    /// Takes a line that was read and understood, or not understood.
    pub fn on_cas_line(&mut self, line: Option<CasLine>) -> (r: CasReaction)
        ensures
            final(self)@ == after_line(old(self)@, line),
            r == reaction_to(old(self)@, line, final(self)@),
    {
        if self.state != SessionState::Running {
            self.state = SessionState::Failed;
            return CasReaction::Abort;
        }
        let total = self.total;
        match line {
            Some(CasLine::Solved(n)) => CasReaction::Continue(following(n, total)),
            Some(CasLine::ManySolutions(n)) => {
                self.many_solutions.push(n);
                CasReaction::Continue(following(n, total))
            },
            Some(CasLine::TimedOut(n)) => {
                self.timed_outs.push(n);
                CasReaction::Continue(following(n, total))
            },
            Some(CasLine::Finished) => {
                self.state = SessionState::Finished;
                CasReaction::Done(self.many_solutions.len() == 0 && self.timed_outs.len() == 0)
            },
            None => {
                self.state = SessionState::Failed;
                CasReaction::Abort
            },
        }
    }

    /// Takes a line of the output of the computer algebra system.
    pub fn on_line(&mut self, line: &str) -> (r: CasReaction)
        ensures
            final(self)@ == after_line(old(self)@, line_meaning(line@)),
            r == reaction_to(old(self)@, line_meaning(line@), final(self)@),
    {
        let meaning = parse_cas_line(line);
        self.on_cas_line(meaning)
    }

    /// Takes the end of the output. The output may end only after the line
    /// that reports the end: the result is whether the run succeeded, and
    /// `None` where the output broke off.
    pub fn on_end_of_output(&self) -> (r: Option<bool>)
        ensures
            r == if self@.state == SessionState::Finished {
                Some(succeeded(self@))
            } else {
                None
            },
    {
        if self.state == SessionState::Finished {
            Some(self.many_solutions.len() == 0 && self.timed_outs.len() == 0)
        } else {
            None
        }
    }
}

/// The system that is worked on after the one with index `n` is done.
fn following(n: usize, total: usize) -> (r: Option<usize>)
    ensures
        r == next_system(n, total),
{
    if n < total && n + 1 < total {
        Some(n + 1)
    } else {
        None
    }
}

/// What is to be said of a report on a system.
pub open spec fn report_text(line: CasLine, total: usize) -> Option<Seq<char>> {
    match line {
        CasLine::Solved(n) => Some(
            "Polynomial system "@ + decimal_nat((n + 1) as nat) + "/"@ + decimal_nat(total as nat)
                + " has only one solution!"@,
        ),
        CasLine::ManySolutions(n) => Some(
            "Polynomial system number "@ + decimal_nat((n + 1) as nat)
                + " possibly has many solutions!"@,
        ),
        CasLine::TimedOut(n) => Some(
            "Polynomial system number "@ + decimal_nat((n + 1) as nat) + " has timed-out! "@,
        ),
        CasLine::Finished => None,
    }
}

/// What is to be said of a line of a run with `total` systems.
pub fn report_message(line: CasLine, total: usize) -> (r: Option<String>)
    requires
        report_fits(line),
    ensures
        r is Some <==> report_text(line, total) is Some,
        r matches Some(text) ==> Some(text@) == report_text(line, total),
{
    match line {
        CasLine::Solved(n) => {
            let mut text = String::from_str("Polynomial system ");
            text.append(usize_to_string(n + 1).as_str());
            text.append("/");
            text.append(usize_to_string(total).as_str());
            text.append(" has only one solution!");
            Some(text)
        },
        CasLine::ManySolutions(n) => {
            let mut text = String::from_str("Polynomial system number ");
            text.append(usize_to_string(n + 1).as_str());
            text.append(" possibly has many solutions!");
            Some(text)
        },
        CasLine::TimedOut(n) => {
            let mut text = String::from_str("Polynomial system number ");
            text.append(usize_to_string(n + 1).as_str());
            text.append(" has timed-out! ");
            Some(text)
        },
        CasLine::Finished => None,
    }
}

/// The line that says what `line` says.
pub open spec fn line_text(line: CasLine) -> Seq<char> {
    match line {
        CasLine::Solved(n) => "OK: "@ + decimal_nat(n as nat),
        CasLine::ManySolutions(n) => "ERROR: "@ + decimal_nat(n as nat),
        CasLine::TimedOut(n) => "TIMEOUT: "@ + decimal_nat(n as nat),
        CasLine::Finished => "FINISHED"@,
    }
}

/// A line written for a report is read back as that report.
pub proof fn lemma_line_read_back(line: CasLine)
    ensures
        line_meaning(line_text(line)) == Some(line),
{
    reveal_strlit("OK: ");
    reveal_strlit("ERROR: ");
    reveal_strlit("TIMEOUT: ");
    reveal_strlit("FINISHED");
    let text = line_text(line);
    match line {
        CasLine::Solved(n) => {
            lemma_decimal_nat_round_trip(n as nat);
            assert(text.take(4) =~= "OK: "@);
            assert(text.skip(4) =~= decimal_nat(n as nat));
        },
        CasLine::ManySolutions(n) => {
            lemma_decimal_nat_round_trip(n as nat);
            assert(text[0] == 'E');
            assert(text.take(4)[0] == 'E');
            assert(text.take(7) =~= "ERROR: "@);
            assert(text.skip(7) =~= decimal_nat(n as nat));
        },
        CasLine::TimedOut(n) => {
            lemma_decimal_nat_round_trip(n as nat);
            assert(text[0] == 'T');
            assert(text.take(4)[0] == 'T');
            assert(text.take(7)[0] == 'T');
            assert(text.take(9) =~= "TIMEOUT: "@);
            assert(text.skip(9) =~= decimal_nat(n as nat));
        },
        CasLine::Finished => {
            assert(text[0] == 'F');
            assert(text.take(4)[0] == 'F');
            assert(text.take(7)[0] == 'F');
            assert(text.len() == 8);
        },
    }
}

} // verus!
