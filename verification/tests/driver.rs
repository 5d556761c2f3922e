use circuit_verification::cas_driver::{
    parse_cas_line, report_message, CasLine, CasReaction, CasSession, SessionState,
};

#[test]
fn lines_of_the_protocol_are_understood() {
    assert_eq!(parse_cas_line("OK: 0"), Some(CasLine::Solved(0)));
    assert_eq!(parse_cas_line("OK: 12"), Some(CasLine::Solved(12)));
    assert_eq!(parse_cas_line("ERROR: 3"), Some(CasLine::ManySolutions(3)));
    assert_eq!(parse_cas_line("TIMEOUT: 40"), Some(CasLine::TimedOut(40)));
    assert_eq!(parse_cas_line("FINISHED"), Some(CasLine::Finished));
}

#[test]
fn other_lines_are_not() {
    for line in [
        "", "OK", "OK:", "OK: ", "OK:1", "OK: -1", "OK: +1", "OK: 1 ", " OK: 1", "ok: 1",
        "OK: 1x", "ERROR 1", "TIMEOUT: ", "FINISHED ", "finished", "FINISHED\n",
        "OK: 99999999999999999999999999999", "--- banner ---",
    ] {
        assert_eq!(parse_cas_line(line), None, "{:?}", line);
    }
}

#[test]
fn any_interleaving_ended_by_finished_is_accepted() {
    let mut session = CasSession::new(4);
    assert_eq!(session.state(), SessionState::Running);
    assert_eq!(session.on_line("OK: 0"), CasReaction::Continue(Some(1)));
    assert_eq!(session.on_line("TIMEOUT: 1"), CasReaction::Continue(Some(2)));
    assert_eq!(session.on_line("ERROR: 3"), CasReaction::Continue(None));
    assert_eq!(session.on_line("OK: 2"), CasReaction::Continue(Some(3)));
    assert_eq!(session.on_line("ERROR: 0"), CasReaction::Continue(Some(1)));
    assert_eq!(session.state(), SessionState::Running);
    assert_eq!(session.on_end_of_output(), None);
    assert_eq!(session.on_line("FINISHED"), CasReaction::Done(false));
    assert_eq!(session.state(), SessionState::Finished);
    assert_eq!(session.many_solutions(), &vec![3, 0]);
    assert_eq!(session.timed_outs(), &vec![1]);
    assert_eq!(session.on_end_of_output(), Some(false));
}

#[test]
fn a_run_without_failures_succeeds() {
    let mut session = CasSession::new(2);
    assert_eq!(session.on_line("OK: 0"), CasReaction::Continue(Some(1)));
    assert_eq!(session.on_line("OK: 1"), CasReaction::Continue(None));
    assert_eq!(session.on_line("FINISHED"), CasReaction::Done(true));
    assert_eq!(session.on_end_of_output(), Some(true));

    let mut empty = CasSession::new(0);
    assert_eq!(empty.on_line("FINISHED"), CasReaction::Done(true));
}

#[test]
fn lines_that_break_the_protocol_abort_the_session() {
    let mut session = CasSession::new(2);
    assert_eq!(session.on_line("Welcome"), CasReaction::Abort);
    assert_eq!(session.state(), SessionState::Failed);
    assert_eq!(session.on_line("FINISHED"), CasReaction::Abort);
    assert_eq!(session.on_end_of_output(), None);

    let mut session = CasSession::new(2);
    assert_eq!(session.on_line("OK:2"), CasReaction::Abort);
    assert_eq!(session.state(), SessionState::Failed);

    let mut session = CasSession::new(1);
    assert_eq!(session.on_line("FINISHED"), CasReaction::Done(true));
    assert_eq!(session.on_line("FINISHED"), CasReaction::Abort);
    assert_eq!(session.state(), SessionState::Failed);
    assert_eq!(session.on_cas_line(Some(CasLine::Solved(0))), CasReaction::Abort);
}

#[test]
fn reports_are_worded() {
    assert_eq!(
        report_message(CasLine::Solved(0), 3).unwrap(),
        "Polynomial system 1/3 has only one solution!"
    );
    assert_eq!(
        report_message(CasLine::ManySolutions(1), 3).unwrap(),
        "Polynomial system number 2 possibly has many solutions!"
    );
    assert_eq!(
        report_message(CasLine::TimedOut(2), 3).unwrap(),
        "Polynomial system number 3 has timed-out! "
    );
    assert_eq!(report_message(CasLine::Finished, 3), None);
}

#[test]
fn a_report_is_taken_whatever_number_it_gives() {
    let mut session = CasSession::new(2);
    assert_eq!(session.on_line("OK: 2"), CasReaction::Continue(None));
    assert_eq!(session.state(), SessionState::Running);
    assert_eq!(session.on_line("OK: 0"), CasReaction::Continue(Some(1)));
    assert_eq!(session.on_line("TIMEOUT: 7"), CasReaction::Continue(None));
    assert_eq!(session.on_line("ERROR: 18446744073709551615"), CasReaction::Continue(None));
    assert_eq!(session.on_line("OK: 1"), CasReaction::Continue(None));
    assert_eq!(session.on_line("FINISHED"), CasReaction::Done(false));
    assert_eq!(session.many_solutions(), &vec![18446744073709551615usize]);
    assert_eq!(session.timed_outs(), &vec![7usize]);
    assert_eq!(session.on_end_of_output(), Some(false));

    let mut session = CasSession::new(1);
    assert_eq!(session.on_line("OK: 5"), CasReaction::Continue(None));
    assert_eq!(session.on_line("FINISHED"), CasReaction::Done(true));
}
