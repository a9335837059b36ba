use load_balancer::{ForwardFailure, LoadBalancer, SessionAction, SessionEvent, SessionState};

fn two_servers(strategy: &str) -> LoadBalancer {
    let mut lb = LoadBalancer::new(strategy.to_string());
    lb.register_server("127.0.0.1:9001".to_string(), 1, 1_000, 0);
    lb.register_server("127.0.0.1:9002".to_string(), 1, 1_000, 0);
    lb
}

fn connections(lb: &LoadBalancer) -> Vec<usize> {
    lb.servers().iter().map(|s| s.connections).collect()
}

#[test]
fn a_request_is_forwarded_and_answered() {
    let mut lb = two_servers("least_connections");
    let (state, action) = lb.advance_session("c", SessionState::Reading, SessionEvent::Request { len: 5 });
    match action {
        SessionAction::ConnectTo { address } => assert_eq!(address, "127.0.0.1:9001"),
        other => panic!("unexpected {:?}", other),
    }
    assert_eq!(connections(&lb), [1, 0]);
    let (state, action) = lb.advance_session("c", state, SessionEvent::Connected);
    assert!(matches!(action, SessionAction::SendRequest));
    let (state, action) = lb.advance_session("c", state, SessionEvent::Sent);
    assert!(matches!(action, SessionAction::ReadAnswer));
    assert_eq!(connections(&lb), [1, 0]);
    let (state, action) =
        lb.advance_session("c", state, SessionEvent::Answer { len: 10, response_time: 7_000_000, checked_at: 77 });
    assert!(matches!(action, SessionAction::Relay));
    assert!(matches!(state, SessionState::Finishing { .. }));
    // The server stays counted until the client has its answer.
    assert_eq!(connections(&lb), [1, 0]);
    assert_eq!(lb.response_time_of(0), Some(7_000_000));
    assert_eq!(lb.servers()[0].last_checked, 77);
    let (state, action) = lb.advance_session("c", state, SessionEvent::Replied);
    assert!(matches!(action, SessionAction::Close));
    assert!(matches!(state, SessionState::Done));
    assert_eq!(connections(&lb), [0, 0]);
    assert_eq!(lb.response_time_of(1), Some(1_000));
}

#[test]
fn concurrent_requests_spread_by_open_connections() {
    let mut lb = two_servers("least_connections");
    let (s1, _) = lb.advance_session("a", SessionState::Reading, SessionEvent::Request { len: 1 });
    let (s2, a2) = lb.advance_session("b", SessionState::Reading, SessionEvent::Request { len: 1 });
    match a2 {
        SessionAction::ConnectTo { address } => assert_eq!(address, "127.0.0.1:9002"),
        other => panic!("unexpected {:?}", other),
    }
    assert_eq!(connections(&lb), [1, 1]);
    let (s1, a) = lb.advance_session("a", s1, SessionEvent::ConnectFailed);
    assert!(matches!(a, SessionAction::Reply { failure: ForwardFailure::Connect }));
    assert_eq!(connections(&lb), [1, 1]);
    let (_, a) = lb.advance_session("a", s1, SessionEvent::Replied);
    assert!(matches!(a, SessionAction::Close));
    assert_eq!(connections(&lb), [0, 1]);
    let (s2, _) = lb.advance_session("b", s2, SessionEvent::Connected);
    let (s2, a) = lb.advance_session("b", s2, SessionEvent::SendFailed);
    assert!(matches!(a, SessionAction::Reply { failure: ForwardFailure::Forward }));
    lb.advance_session("b", s2, SessionEvent::Replied);
    assert_eq!(connections(&lb), [0, 0]);
}

#[test]
fn failed_or_empty_answers_release_the_server() {
    let mut lb = two_servers("round_robin");
    let (s, _) = lb.advance_session("c", SessionState::Reading, SessionEvent::Request { len: 3 });
    let (s, _) = lb.advance_session("c", s, SessionEvent::Connected);
    let (s, _) = lb.advance_session("c", s, SessionEvent::Sent);
    let (s, a) = lb.advance_session("c", s, SessionEvent::Answer { len: 0, response_time: 1, checked_at: 5 });
    assert!(matches!(a, SessionAction::Reply { failure: ForwardFailure::EmptyResponse }));
    lb.advance_session("c", s, SessionEvent::Replied);
    assert_eq!(connections(&lb), [0, 0]);
    assert_eq!(lb.response_time_of(0), Some(1_000));
    assert!(lb.servers().iter().all(|s| s.last_checked == 0));

    let (s, a) = lb.advance_session("c", SessionState::Reading, SessionEvent::Request { len: 3 });
    match a {
        SessionAction::ConnectTo { address } => assert_eq!(address, "127.0.0.1:9002"),
        other => panic!("unexpected {:?}", other),
    }
    let (s, _) = lb.advance_session("c", s, SessionEvent::Connected);
    let (s, _) = lb.advance_session("c", s, SessionEvent::Sent);
    let (s, a) = lb.advance_session("c", s, SessionEvent::AnswerFailed);
    assert!(matches!(a, SessionAction::Reply { failure: ForwardFailure::ReadResponse }));
    assert_eq!(connections(&lb).iter().sum::<usize>(), 1);
    lb.advance_session("c", s, SessionEvent::Replied);
    assert_eq!(connections(&lb), [0, 0]);
}

#[test]
fn empty_requests_and_missing_servers() {
    let mut lb = two_servers("round_robin");
    let (s, a) = lb.advance_session("c", SessionState::Reading, SessionEvent::Request { len: 0 });
    assert!(matches!(a, SessionAction::Close));
    assert!(matches!(s, SessionState::Done));
    assert_eq!(connections(&lb), [0, 0]);
    // An empty request picks no server: round robin has not moved on.
    assert_eq!(lb.servers()[0].address, "127.0.0.1:9001");

    let mut empty = LoadBalancer::new("round_robin".to_string());
    let (s, a) = empty.advance_session("c", SessionState::Reading, SessionEvent::Request { len: 4 });
    assert!(matches!(a, SessionAction::Reply { failure: ForwardFailure::NoServers }));
    assert!(matches!(s, SessionState::Done));
}

#[test]
fn events_out_of_turn_are_ignored() {
    let mut lb = two_servers("round_robin");
    let (s, a) = lb.advance_session("c", SessionState::Reading, SessionEvent::Connected);
    assert!(matches!(a, SessionAction::Ignore));
    assert!(matches!(s, SessionState::Reading));
    let (s, a) = lb.advance_session("c", SessionState::Reading, SessionEvent::Replied);
    assert!(matches!(a, SessionAction::Ignore));
    assert!(matches!(s, SessionState::Reading));
    let (s, a) = lb.advance_session("c", SessionState::Done, SessionEvent::Request { len: 9 });
    assert!(matches!(a, SessionAction::Ignore));
    assert!(matches!(s, SessionState::Done));
    assert_eq!(connections(&lb), [0, 0]);
    assert_eq!(lb.servers()[0].address, "127.0.0.1:9001");
}
