use load_balancer::{ForwardFailure, LoadBalancer, Server, Strategy};

fn balancer(strategy: &str, servers: &[(&str, usize)]) -> LoadBalancer {
    let mut lb = LoadBalancer::new(strategy.to_string());
    for (address, weight) in servers {
        lb.register_server(address.to_string(), *weight, 1_000, 0);
    }
    lb
}

fn pick(lb: &mut LoadBalancer, client: &str) -> String {
    lb.select_server(client).expect("a server").address
}

#[test]
fn strategy_names_are_read() {
    let cases = [
        ("round_robin", Strategy::RoundRobin),
        ("sticky_round_robin", Strategy::StickyRoundRobin),
        ("weighted_round_robin", Strategy::WeightedRoundRobin),
        ("least_connections", Strategy::LeastConnections),
        ("least_time", Strategy::LeastTime),
        ("random", Strategy::Unsupported),
        ("", Strategy::Unsupported),
        ("Round_Robin", Strategy::Unsupported),
    ];
    for (name, expected) in cases {
        assert_eq!(Strategy::from_name(&name.to_string()), expected);
        assert_eq!(LoadBalancer::new(name.to_string()).strategy(), expected);
    }
}

#[test]
fn no_server_no_choice() {
    for name in ["round_robin", "sticky_round_robin", "weighted_round_robin", "least_connections", "least_time", "other"] {
        let mut lb = LoadBalancer::new(name.to_string());
        assert!(lb.select_server("10.0.0.1").is_none());
        assert_eq!(lb.server_count(), 0);
    }
}

#[test]
fn ids_follow_subscription_order() {
    let mut lb = LoadBalancer::new("round_robin".to_string());
    assert_eq!(lb.register_server("a".to_string(), 1, 5, 0), 0);
    assert_eq!(lb.register_server("b".to_string(), 2, 6, 9), 1);
    let servers: Vec<Server> = lb.servers();
    assert_eq!(servers.len(), 2);
    assert_eq!(servers[1].address, "b");
    assert_eq!(servers[1].weight, 2);
    assert_eq!(servers[1].connections, 0);
    assert_eq!(servers[1].response_time, 6);
    assert_eq!(servers[1].last_checked, 9);
}

#[test]
fn round_robin_takes_turns() {
    let mut lb = balancer("round_robin", &[("a", 1), ("b", 1), ("c", 1)]);
    let picks: Vec<String> = (0..7).map(|_| pick(&mut lb, "x")).collect();
    assert_eq!(picks, ["a", "b", "c", "a", "b", "c", "a"]);
    let order: Vec<String> = lb.servers().into_iter().map(|s| s.address).collect();
    assert_eq!(order, ["b", "c", "a"]);
}

#[test]
fn round_robin_cycle_restores_order() {
    let mut lb = balancer("round_robin", &[("a", 1), ("b", 1), ("c", 1), ("d", 1)]);
    for _ in 0..4 {
        lb.select_server("x");
    }
    let order: Vec<String> = lb.servers().into_iter().map(|s| s.address).collect();
    assert_eq!(order, ["a", "b", "c", "d"]);
}

#[test]
fn sticky_round_robin_is_per_client() {
    let mut lb = balancer("sticky_round_robin", &[("a", 1), ("b", 1), ("c", 1)]);
    assert_eq!(pick(&mut lb, "1.1.1.1"), "a");
    assert_eq!(pick(&mut lb, "1.1.1.1"), "b");
    assert_eq!(pick(&mut lb, "2.2.2.2"), "a");
    assert_eq!(pick(&mut lb, "1.1.1.1"), "c");
    assert_eq!(pick(&mut lb, "1.1.1.1"), "a");
    assert_eq!(pick(&mut lb, "2.2.2.2"), "b");
    let order: Vec<String> = lb.servers().into_iter().map(|s| s.address).collect();
    assert_eq!(order, ["a", "b", "c"]);
}

#[test]
fn sticky_index_wraps_when_servers_join() {
    let mut lb = balancer("sticky_round_robin", &[("a", 1), ("b", 1)]);
    assert_eq!(pick(&mut lb, "c1"), "a");
    assert_eq!(pick(&mut lb, "c1"), "b");
    // The client is now due at index 0 of two; a third server joins.
    lb.register_server("c".to_string(), 1, 1, 0);
    assert_eq!(pick(&mut lb, "c1"), "a");
    assert_eq!(pick(&mut lb, "c1"), "b");
    assert_eq!(pick(&mut lb, "c1"), "c");
}

#[test]
fn weighted_round_robin_follows_weights() {
    let mut lb = balancer("weighted_round_robin", &[("a", 1), ("b", 2)]);
    // The counter starts at 0 and moves to 1 before the first choice.
    let picks: Vec<String> = (0..6).map(|_| pick(&mut lb, "x")).collect();
    assert_eq!(picks, ["b", "b", "a", "b", "b", "a"]);
}

#[test]
fn weighted_round_robin_fair_over_a_cycle() {
    let weights = [3usize, 0, 5, 1, 2];
    let names = ["a", "b", "c", "d", "e"];
    let servers: Vec<(&str, usize)> = names.iter().copied().zip(weights.iter().copied()).collect();
    let mut lb = balancer("weighted_round_robin", &servers);
    let total: usize = weights.iter().sum();
    let mut counts = [0usize; 5];
    for _ in 0..total {
        let name = pick(&mut lb, "x");
        let i = names.iter().position(|n| *n == name).unwrap();
        counts[i] += 1;
    }
    assert_eq!(counts, weights);
}

#[test]
fn weighted_round_robin_with_zero_weights_takes_first() {
    let mut lb = balancer("weighted_round_robin", &[("a", 0), ("b", 0)]);
    assert_eq!(pick(&mut lb, "x"), "a");
    assert_eq!(pick(&mut lb, "x"), "a");
}

#[test]
fn weights_that_overflow_are_detected() {
    let lb = balancer("weighted_round_robin", &[("a", usize::MAX), ("b", 1)]);
    assert!(!lb.weights_fit());
    let lb = balancer("weighted_round_robin", &[("a", usize::MAX - 1), ("b", 1)]);
    assert!(lb.weights_fit());
}

#[test]
fn least_connections_prefers_idle_servers() {
    let mut lb = balancer("least_connections", &[("a", 1), ("b", 1), ("c", 1)]);
    assert_eq!(pick(&mut lb, "x"), "a");
    assert!(lb.begin_connection(0));
    assert_eq!(pick(&mut lb, "x"), "b");
    assert!(lb.begin_connection(1));
    assert!(lb.begin_connection(1));
    assert_eq!(pick(&mut lb, "x"), "c");
    assert!(lb.begin_connection(2));
    // a: 1, b: 2, c: 1 -> the first of the least loaded.
    assert_eq!(pick(&mut lb, "x"), "a");
    assert!(lb.end_connection(1));
    assert!(lb.end_connection(1));
    assert_eq!(pick(&mut lb, "x"), "b");
}

#[test]
fn least_time_prefers_fast_servers() {
    let mut lb = LoadBalancer::new("least_time".to_string());
    lb.register_server("a".to_string(), 1, 300, 0);
    lb.register_server("b".to_string(), 1, 100, 0);
    lb.register_server("c".to_string(), 1, 100, 0);
    assert_eq!(pick(&mut lb, "x"), "b");
    assert!(lb.record_response_time(1, 500, 20));
    assert_eq!(lb.servers()[1].last_checked, 20);
    assert_eq!(lb.servers()[0].last_checked, 0);
    assert_eq!(pick(&mut lb, "x"), "c");
    assert!(lb.record_response_time(0, 50, 30));
    assert_eq!(pick(&mut lb, "x"), "a");
    assert_eq!(lb.response_time_of(0), Some(50));
    assert!(!lb.record_response_time(7, 1, 40));
    assert_eq!(lb.response_time_of(7), None);
}

#[test]
fn unsupported_strategy_takes_first() {
    let mut lb = balancer("fastest", &[("a", 1), ("b", 1)]);
    assert_eq!(pick(&mut lb, "x"), "a");
    assert_eq!(pick(&mut lb, "x"), "a");
    assert_eq!(lb.strategy_name(), "fastest");
}

#[test]
fn connection_counts_undo() {
    let mut lb = balancer("least_connections", &[("a", 1)]);
    assert!(!lb.end_connection(0));
    assert!(lb.begin_connection(0));
    assert_eq!(lb.servers()[0].connections, 1);
    assert!(lb.end_connection(0));
    assert_eq!(lb.servers()[0].connections, 0);
    assert!(!lb.begin_connection(3));
    assert!(!lb.end_connection(3));
}

#[test]
fn connections_follow_the_server_through_rotation() {
    let mut lb = balancer("round_robin", &[("a", 1), ("b", 1)]);
    let first = lb.select_server("x").unwrap();
    assert!(lb.begin_connection(first.id));
    let servers = lb.servers();
    assert_eq!(servers[1].address, "a");
    assert_eq!(servers[1].connections, 1);
    assert_eq!(servers[0].connections, 0);
}

#[test]
fn forward_failures_are_answered() {
    assert_eq!(ForwardFailure::NoServers.reply(), "Error: No servers available");
    assert_eq!(ForwardFailure::Connect.reply(), "Error connecting to backend server");
    assert_eq!(ForwardFailure::Forward.reply(), "Error forwarding request");
    assert_eq!(ForwardFailure::EmptyResponse.reply(), "Error: Empty response from server");
    assert_eq!(ForwardFailure::ReadResponse.reply(), "Error reading response from server");
}

#[test]
fn a_health_round_only_touches_times() {
    let mut lb = balancer("least_time", &[("a", 2), ("b", 3), ("c", 0)]);
    assert!(lb.begin_connection(1));
    let before = lb.servers();
    for (i, server) in before.iter().enumerate() {
        assert!(lb.record_response_time(server.id, 100 + i as u128, 1_000 + i as u128));
    }
    let after = lb.servers();
    assert_eq!(after.len(), before.len());
    for (i, (b, a)) in before.iter().zip(after.iter()).enumerate() {
        assert_eq!((a.id, &a.address, a.weight, a.connections), (b.id, &b.address, b.weight, b.connections));
        assert_eq!(a.response_time, 100 + i as u128);
        assert_eq!(a.last_checked, 1_000 + i as u128);
    }
}
