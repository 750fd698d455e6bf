use manga_parser_core::session::Session;

#[test]
fn one_run_at_a_time() {
    let mut session = Session::default();
    assert!(!session.is_busy());
    let ticket = session.start().expect("an idle session starts");
    assert!(session.is_busy());
    assert!(session.start().is_none());
    assert!(session.is_busy());
    session.finish(ticket);
    assert!(!session.is_busy());
    assert!(session.start().is_some());
}

#[test]
fn cancel_reaches_only_the_current_run() {
    let mut session = Session::default();
    let ticket = session.start().unwrap();
    session.cancel();
    assert!(session.is_cancelled());
    assert!(session.is_busy());
    session.finish(ticket);
    let _next = session.start().unwrap();
    assert!(!session.is_cancelled());
}
