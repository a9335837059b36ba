use load_balancer::backend::{MAX_RANDOM_WEIGHT, MIN_RANDOM_WEIGHT};
use load_balancer::{
    accepted_reply, client_request, health_check_time, parse_subscription, server_reply,
    server_weight, subscription_message, LoadBalancer, Subscription, SubscriptionError,
    DEFAULT_RESPONSE_TIME_NANOS, UNREACHABLE_RESPONSE_TIME_NANOS,
};

fn parsed(message: &str) -> Result<(String, usize), SubscriptionError> {
    parse_subscription(message).map(|s: Subscription| (s.address, s.weight))
}

#[test]
fn well_formed_subscription() {
    assert_eq!(parsed("subscribe 127.0.0.1:8000 5"), Ok(("127.0.0.1:8000".to_string(), 5)));
}

#[test]
fn white_space_of_any_kind_separates_words() {
    assert_eq!(parsed("  subscribe\t127.0.0.1:8001\n\n 7 \r\n"), Ok(("127.0.0.1:8001".to_string(), 7)));
    assert_eq!(parsed("subscribe\u{3000}host\u{a0}9"), Ok(("host".to_string(), 9)));
    assert_eq!(parsed("subscribe\u{2003}h\u{85}0"), Ok(("h".to_string(), 0)));
}

#[test]
fn extra_words_are_ignored() {
    assert_eq!(parsed("subscribe a 3 and more"), Ok(("a".to_string(), 3)));
}

#[test]
fn too_few_words() {
    assert_eq!(parsed(""), Err(SubscriptionError::InvalidFormat));
    assert_eq!(parsed("   "), Err(SubscriptionError::InvalidFormat));
    assert_eq!(parsed("subscribe"), Err(SubscriptionError::InvalidFormat));
    assert_eq!(parsed("subscribe 127.0.0.1:8000"), Err(SubscriptionError::InvalidFormat));
}

#[test]
fn wrong_first_word() {
    assert_eq!(parsed("Subscribe a 1"), Err(SubscriptionError::InvalidFormat));
    assert_eq!(parsed("subscribe! a 1"), Err(SubscriptionError::InvalidFormat));
    assert_eq!(parsed("hello a b"), Err(SubscriptionError::InvalidFormat));
}

#[test]
fn weights_read_as_usize_does() {
    assert_eq!(parsed("subscribe a +12"), Ok(("a".to_string(), 12)));
    assert_eq!(parsed("subscribe a 007"), Ok(("a".to_string(), 7)));
    assert_eq!(parsed("subscribe a -1"), Err(SubscriptionError::InvalidWeight));
    assert_eq!(parsed("subscribe a +"), Err(SubscriptionError::InvalidWeight));
    assert_eq!(parsed("subscribe a ++1"), Err(SubscriptionError::InvalidWeight));
    assert_eq!(parsed("subscribe a 1x"), Err(SubscriptionError::InvalidWeight));
    assert_eq!(parsed("subscribe a ５"), Err(SubscriptionError::InvalidWeight));
    let max = usize::MAX.to_string();
    assert_eq!(parsed(&format!("subscribe a {}", max)), Ok(("a".to_string(), usize::MAX)));
    assert_eq!(parsed("subscribe a 99999999999999999999999999"), Err(SubscriptionError::InvalidWeight));
    for text in ["0", "12", "+3", "-3", "", "+", "1_0", "18446744073709551616", "٣"] {
        let expected: Result<usize, _> = text.parse::<usize>();
        let got = parsed(&format!("subscribe a {}", text));
        if text.is_empty() {
            assert_eq!(got, Err(SubscriptionError::InvalidFormat));
        } else {
            match expected {
                Ok(v) => assert_eq!(got, Ok(("a".to_string(), v))),
                Err(_) => assert_eq!(got, Err(SubscriptionError::InvalidWeight)),
            }
        }
    }
}

#[test]
fn subscription_message_reads_back() {
    for (address, weight) in [("127.0.0.1:8000", 5usize), ("h", 0), ("[::1]:80", usize::MAX), ("x", 10)] {
        let message = subscription_message(address, weight);
        assert_eq!(message, format!("subscribe {} {}", address, weight));
        assert_eq!(parsed(&message), Ok((address.to_string(), weight)));
    }
}

#[test]
fn replies_to_subscriptions() {
    assert_eq!(SubscriptionError::InvalidFormat.reply(), "Error: Invalid subscription format");
    assert_eq!(SubscriptionError::InvalidWeight.reply(), "Error: Invalid weight format");
    assert_eq!(accepted_reply(), "Subscription successful");
}

#[test]
fn subscribing_sets_the_initial_response_time() {
    let mut lb = LoadBalancer::new("round_robin".to_string());
    let sub = parse_subscription("subscribe a 2").unwrap();
    let id = lb.subscribe(sub, Some(5), 11);
    assert_eq!(id, 0);
    assert_eq!(lb.response_time_of(id), Some(DEFAULT_RESPONSE_TIME_NANOS));
    assert!(!lb.probes_servers());

    let mut lb = LoadBalancer::new("least_time".to_string());
    assert!(lb.probes_servers());
    let id = lb.subscribe(parse_subscription("subscribe a 2").unwrap(), Some(1234), 12);
    assert_eq!(lb.response_time_of(id), Some(1234));
    let id = lb.subscribe(parse_subscription("subscribe b 2").unwrap(), None, 13);
    assert_eq!(id, 1);
    assert_eq!(lb.response_time_of(id), Some(UNREACHABLE_RESPONSE_TIME_NANOS));
    assert_eq!(lb.servers()[1].weight, 2);
    assert_eq!(lb.servers()[1].last_checked, 13);
}

#[test]
fn health_checks_measure_or_penalise() {
    assert_eq!(health_check_time(Some(42)), 42);
    assert_eq!(health_check_time(None), 60_000_000_000);
    assert_eq!(DEFAULT_RESPONSE_TIME_NANOS, 1_000_000_000);
}

#[test]
fn server_weights() {
    assert_eq!(server_weight(Some("7")), (7, false));
    assert_eq!(server_weight(Some("+0")), (0, false));
    for _ in 0..50 {
        let (w, replaced) = server_weight(Some("heavy"));
        assert!(replaced);
        assert!((1..=10).contains(&w));
        let (w, replaced) = server_weight(None);
        assert!(!replaced);
        assert!((1..=10).contains(&w));
    }
}

#[test]
fn random_weights_stay_in_their_range() {
    assert_eq!((MIN_RANDOM_WEIGHT, MAX_RANDOM_WEIGHT), (1, 10));
    let mut seen = [false; 11];
    for _ in 0..2000 {
        let (w, _) = server_weight(None);
        assert!((MIN_RANDOM_WEIGHT..=MAX_RANDOM_WEIGHT).contains(&w));
        seen[w] = true;
    }
    // Over many draws the whole range shows up, not only its ends.
    assert!(seen[1..].iter().all(|b| *b));
}

#[test]
fn greetings() {
    assert_eq!(server_reply("127.0.0.1:8000"), "Hello from server 127.0.0.1:8000!");
    assert_eq!(client_request(1, 3), "Hello from client 1 (request 3)!");
    assert_eq!(client_request(12, 0), "Hello from client 12 (request 0)!");
}
