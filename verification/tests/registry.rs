use sidelb::load_balancer::LoadBalancer;
use sidelb::types::{Backend, Endpoint, LoadBalancerMode, Protocol};

fn tcp(a: u8, b: u8, c: u8, d: u8, port: u16) -> Backend {
    Backend { addr: Endpoint::from_octets(a, b, c, d, port), protocol: Protocol::TCP }
}

fn two_hosts(mode: LoadBalancerMode) -> LoadBalancer {
    let mut lb = LoadBalancer::new(mode);
    lb.add_backends(vec![
        ("10.0.0.1".to_string(), vec![(Endpoint::from_octets(10, 0, 0, 1, 80), Some(Protocol::TCP))]),
        ("10.0.0.2".to_string(), vec![(Endpoint::from_octets(10, 0, 0, 2, 80), Some(Protocol::TCP))]),
    ]);
    lb
}

#[test]
fn from_octets_packs_most_significant_first() {
    let endpoint = Endpoint::from_octets(10, 0, 0, 1, 80);
    match endpoint {
        Endpoint::V4(v4) => {
            assert_eq!(v4.ip, 0x0a00_0001);
            assert_eq!(v4.port, 80);
        }
        Endpoint::V6(_) => panic!("an IPv4 endpoint was built"),
    }
    assert_ne!(endpoint, Endpoint::from_octets(10, 0, 0, 1, 81));
    assert_ne!(endpoint, Endpoint::from_octets(1, 0, 0, 10, 80));
}

#[test]
fn absent_hint_means_stream() {
    let addr = Endpoint::from_octets(10, 0, 0, 1, 80);
    assert_eq!(Backend::from_hint((addr, None)), Backend { addr, protocol: Protocol::TCP });
    assert_eq!(
        Backend::from_hint((addr, Some(Protocol::UDP))),
        Backend { addr, protocol: Protocol::UDP }
    );
}

#[test]
fn select_on_empty_registry_returns_none() {
    let mut lb = LoadBalancer::new(LoadBalancerMode::RoundRobin);
    assert!(lb.is_empty());
    assert!(!lb.has_active_backend());
    assert_eq!(lb.next_backend(), None);
    let mut lb = LoadBalancer::new(LoadBalancerMode::LeastConnections);
    assert_eq!(lb.mode(), LoadBalancerMode::LeastConnections);
    assert_eq!(lb.next_backend(), None);
}

#[test]
fn static_registration_sets_both_views_and_seeds_the_counter() {
    let lb = two_hosts(LoadBalancerMode::RoundRobin);
    assert!(!lb.is_empty());
    assert_eq!(lb.configured_backends("10.0.0.1"), Some(vec![tcp(10, 0, 0, 1, 80)]));
    assert_eq!(lb.active_backends("10.0.0.1"), Some(vec![tcp(10, 0, 0, 1, 80)]));
    assert_eq!(lb.connection_count("10.0.0.1"), Some(0));
    assert_eq!(lb.configured_backends("10.0.0.3"), None);
    assert_eq!(lb.active_backends("10.0.0.3"), None);
    assert_eq!(lb.connection_count("10.0.0.3"), None);
    assert_eq!(
        lb.snapshot_configured(),
        vec![
            ("10.0.0.1".to_string(), vec![tcp(10, 0, 0, 1, 80)]),
            ("10.0.0.2".to_string(), vec![tcp(10, 0, 0, 2, 80)]),
        ]
    );
}

#[test]
fn static_registration_replaces_and_keeps_the_counter() {
    let mut lb = two_hosts(LoadBalancerMode::RoundRobin);
    lb.increment_connection(Endpoint::from_octets(10, 0, 0, 1, 80));
    lb.add_backends(vec![(
        "10.0.0.1".to_string(),
        vec![(Endpoint::from_octets(10, 0, 0, 1, 81), None)],
    )]);
    assert_eq!(lb.configured_backends("10.0.0.1"), Some(vec![tcp(10, 0, 0, 1, 81)]));
    assert_eq!(lb.active_backends("10.0.0.1"), Some(vec![tcp(10, 0, 0, 1, 81)]));
    assert_eq!(lb.connection_count("10.0.0.1"), Some(1));
}

#[test]
fn static_registration_with_an_empty_list_removes_the_group() {
    let mut lb = two_hosts(LoadBalancerMode::RoundRobin);
    lb.add_backends(vec![("10.0.0.1".to_string(), vec![])]);
    assert_eq!(lb.configured_backends("10.0.0.1"), None);
    assert_eq!(lb.active_backends("10.0.0.1"), None);
    assert_eq!(lb.connection_count("10.0.0.1"), None);
    assert_eq!(lb.configured_backends("10.0.0.2"), Some(vec![tcp(10, 0, 0, 2, 80)]));
}

#[test]
fn every_active_or_counted_label_is_configured() {
    let mut lb = two_hosts(LoadBalancerMode::RoundRobin);
    lb.update_dynamic_backends("x.example:53", vec![(Endpoint::from_octets(1, 1, 1, 1, 53), None)]);
    lb.record_probe("10.0.0.2", tcp(10, 0, 0, 2, 80), false);
    for label in ["10.0.0.1", "10.0.0.2", "x.example:53", "nowhere"] {
        if lb.active_backends(label).is_some() || lb.connection_count(label).is_some() {
            assert!(lb.configured_backends(label).is_some());
        }
    }
    assert_eq!(lb.active_backends("10.0.0.2"), None);
    assert_eq!(lb.active_backends("x.example:53"), None);
    assert_eq!(lb.connection_count("x.example:53"), None);
    lb.increment_connection(Endpoint::from_octets(1, 1, 1, 1, 53));
    assert_eq!(lb.connection_count("x.example:53"), Some(1));
    assert!(lb.configured_backends("x.example:53").is_some());
}
