use sidelb::load_balancer::LoadBalancer;
use sidelb::types::{Endpoint, LoadBalancerMode, Protocol};

fn addr(last: u8, port: u16) -> Endpoint {
    Endpoint::from_octets(10, 0, 0, last, port)
}

fn registry() -> LoadBalancer {
    let mut lb = LoadBalancer::new(LoadBalancerMode::LeastConnections);
    lb.add_backends(vec![
        (
            "10.0.0.1".to_string(),
            vec![(addr(1, 80), Some(Protocol::TCP)), (addr(1, 81), Some(Protocol::TCP))],
        ),
        ("10.0.0.2".to_string(), vec![(addr(2, 80), Some(Protocol::TCP))]),
        ("mirror".to_string(), vec![(addr(2, 80), Some(Protocol::TCP))]),
    ]);
    lb
}

#[test]
fn increment_counts_for_the_group_not_the_endpoint() {
    let mut lb = registry();
    lb.increment_connection(addr(1, 80));
    lb.increment_connection(addr(1, 81));
    assert_eq!(lb.connection_count("10.0.0.1"), Some(2));
    assert_eq!(lb.connection_count("10.0.0.2"), Some(0));
}

#[test]
fn first_group_that_names_the_endpoint_is_counted() {
    let mut lb = registry();
    lb.increment_connection(addr(2, 80));
    assert_eq!(lb.connection_count("10.0.0.2"), Some(1));
    assert_eq!(lb.connection_count("mirror"), Some(0));
    lb.decrement_connection(addr(2, 80));
    assert_eq!(lb.connection_count("10.0.0.2"), Some(0));
    assert_eq!(lb.connection_count("mirror"), Some(0));
}

#[test]
fn decrement_on_a_zero_counter_is_a_no_op() {
    let mut lb = registry();
    lb.decrement_connection(addr(1, 80));
    assert_eq!(lb.connection_count("10.0.0.1"), Some(0));
    lb.increment_connection(addr(1, 80));
    lb.decrement_connection(addr(1, 80));
    lb.decrement_connection(addr(1, 80));
    assert_eq!(lb.connection_count("10.0.0.1"), Some(0));
}

#[test]
fn unknown_endpoint_changes_no_counter() {
    let mut lb = registry();
    lb.increment_connection(addr(9, 80));
    lb.decrement_connection(addr(9, 80));
    for label in ["10.0.0.1", "10.0.0.2", "mirror"] {
        assert_eq!(lb.connection_count(label), Some(0));
    }
}

#[test]
fn paired_traffic_returns_the_counter_to_zero() {
    let mut lb = registry();
    let ops = [
        (addr(1, 80), true),
        (addr(1, 81), true),
        (addr(1, 80), false),
        (addr(1, 80), true),
        (addr(1, 81), false),
        (addr(1, 81), false),
    ];
    let mut peak = 0;
    for (endpoint, start) in ops {
        if start {
            lb.increment_connection(endpoint);
        } else {
            lb.decrement_connection(endpoint);
        }
        peak = peak.max(lb.connection_count("10.0.0.1").unwrap());
    }
    assert_eq!(peak, 2);
    assert_eq!(lb.connection_count("10.0.0.1"), Some(0));
    assert_eq!(lb.connection_count("10.0.0.2"), Some(0));
}

#[test]
fn counter_survives_churn_in_the_active_view() {
    let mut lb = registry();
    lb.increment_connection(addr(2, 80));
    lb.record_probe(
        "10.0.0.2",
        sidelb::types::Backend { addr: addr(2, 80), protocol: Protocol::TCP },
        false,
    );
    assert_eq!(lb.active_backends("10.0.0.2"), None);
    assert_eq!(lb.connection_count("10.0.0.2"), Some(1));
    lb.decrement_connection(addr(2, 80));
    assert_eq!(lb.connection_count("10.0.0.2"), Some(0));
}

fn dynamic() -> LoadBalancer {
    let mut lb = LoadBalancer::new(LoadBalancerMode::LeastConnections);
    lb.add_backends(vec![("static".to_string(), vec![(addr(1, 80), Some(Protocol::TCP))])]);
    lb.update_dynamic_backends("ring:80", vec![(addr(2, 80), Some(Protocol::TCP))]);
    lb.record_probe(
        "ring:80",
        sidelb::types::Backend { addr: addr(2, 80), protocol: Protocol::TCP },
        true,
    );
    lb
}

#[test]
fn first_increment_creates_the_counter_at_one() {
    let mut lb = dynamic();
    assert_eq!(lb.connection_count("ring:80"), None);
    lb.increment_connection(addr(2, 80));
    assert_eq!(lb.connection_count("ring:80"), Some(1));
    lb.decrement_connection(addr(2, 80));
    assert_eq!(lb.connection_count("ring:80"), Some(0));
    lb.decrement_connection(addr(2, 80));
    assert_eq!(lb.connection_count("ring:80"), Some(0));
}

#[test]
fn decrement_creates_no_counter() {
    let mut lb = dynamic();
    lb.decrement_connection(addr(2, 80));
    assert_eq!(lb.connection_count("ring:80"), None);
}

#[test]
fn least_connections_reads_a_missing_counter_as_zero() {
    let mut lb = dynamic();
    lb.increment_connection(addr(1, 80));
    // The static group holds one request; the dynamic group has no counter.
    assert_eq!(lb.next_backend().map(|b| b.addr), Some(addr(2, 80)));
    assert_eq!(lb.connection_count("ring:80"), None);
    lb.decrement_connection(addr(1, 80));
    // Zero against no counter is a tie, and the first group wins it.
    assert_eq!(lb.next_backend().map(|b| b.addr), Some(addr(1, 80)));
}
