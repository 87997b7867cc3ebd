use sidelb::load_balancer::LoadBalancer;
use sidelb::types::{Backend, Endpoint, LoadBalancerMode, Protocol};

fn backend(last: u8) -> Backend {
    Backend { addr: Endpoint::from_octets(10, 0, 0, last, 80), protocol: Protocol::TCP }
}

fn hosts(mode: LoadBalancerMode, count: u8) -> LoadBalancer {
    let mut lb = LoadBalancer::new(mode);
    let mut groups = Vec::new();
    for last in 1..=count {
        groups.push((format!("10.0.0.{}", last), vec![(backend(last).addr, Some(Protocol::TCP))]));
    }
    lb.add_backends(groups);
    lb
}

#[test]
fn round_robin_alternates_between_two_static_backends() {
    let mut lb = hosts(LoadBalancerMode::RoundRobin, 2);
    let mut picks = Vec::new();
    for _ in 0..10 {
        picks.push(lb.next_backend().expect("a backend is active"));
    }
    let expected: Vec<Backend> = (0..10).map(|i| backend(1 + (i % 2) as u8)).collect();
    assert_eq!(picks, expected);
    assert_eq!(picks.iter().filter(|b| **b == backend(1)).count(), 5);
    assert_eq!(picks.iter().filter(|b| **b == backend(2)).count(), 5);
}

#[test]
fn round_robin_visits_each_backend_floor_or_ceiling_times() {
    for k in 1u8..=5 {
        for n in 0usize..=17 {
            let mut lb = hosts(LoadBalancerMode::RoundRobin, k);
            let mut visits = vec![0usize; k as usize];
            for _ in 0..n {
                let picked = lb.next_backend().expect("a backend is active");
                let at = (1..=k).position(|last| backend(last) == picked).expect("a known backend");
                visits[at] += 1;
            }
            let floor = n / k as usize;
            let ceiling = (n + k as usize - 1) / k as usize;
            for count in visits {
                assert!(count == floor || count == ceiling);
            }
        }
    }
}

#[test]
fn round_robin_walks_groups_in_order_and_each_group_in_order() {
    let mut lb = LoadBalancer::new(LoadBalancerMode::RoundRobin);
    lb.add_backends(vec![
        (
            "a".to_string(),
            vec![(backend(1).addr, Some(Protocol::TCP)), (backend(2).addr, Some(Protocol::TCP))],
        ),
        ("b".to_string(), vec![(backend(3).addr, Some(Protocol::TCP))]),
    ]);
    let picks: Vec<Backend> = (0..7).map(|_| lb.next_backend().unwrap()).collect();
    assert_eq!(
        picks,
        vec![backend(1), backend(2), backend(3), backend(1), backend(2), backend(3), backend(1)]
    );
}

#[test]
fn round_robin_cursor_wraps_when_the_active_set_shrinks() {
    let mut lb = hosts(LoadBalancerMode::RoundRobin, 3);
    assert_eq!(lb.next_backend(), Some(backend(1)));
    assert_eq!(lb.next_backend(), Some(backend(2)));
    // The cursor now stands at 2; with two backends left it is taken modulo 2.
    lb.record_probe("10.0.0.3", backend(3), false);
    assert_eq!(lb.next_backend(), Some(backend(1)));
    assert_eq!(lb.next_backend(), Some(backend(2)));
}

#[test]
fn selection_returns_none_exactly_when_nothing_is_active() {
    let mut lb = hosts(LoadBalancerMode::RoundRobin, 2);
    assert!(lb.next_backend().is_some());
    lb.record_probe("10.0.0.1", backend(1), false);
    assert!(lb.has_active_backend());
    assert_eq!(lb.next_backend(), Some(backend(2)));
    lb.record_probe("10.0.0.2", backend(2), false);
    assert!(!lb.has_active_backend());
    assert_eq!(lb.next_backend(), None);
    lb.record_probe("10.0.0.1", backend(1), true);
    assert_eq!(lb.next_backend(), Some(backend(1)));
}

#[test]
fn least_connections_picks_the_other_group_while_one_is_held() {
    let mut lb = hosts(LoadBalancerMode::LeastConnections, 2);
    let first = lb.next_backend().expect("a backend is active");
    assert_eq!(first, backend(1));
    lb.increment_connection(first.addr);
    let second = lb.next_backend().expect("a backend is active");
    assert_eq!(second, backend(2));
    lb.increment_connection(second.addr);
    // Both groups hold one connection: the first group in order wins the tie.
    assert_eq!(lb.next_backend(), Some(backend(1)));
    lb.decrement_connection(second.addr);
    assert_eq!(lb.next_backend(), Some(backend(2)));
}

#[test]
fn least_connections_never_picks_a_group_with_more_than_a_peer() {
    let mut lb = hosts(LoadBalancerMode::LeastConnections, 3);
    for _ in 0..3 {
        lb.increment_connection(backend(1).addr);
    }
    lb.increment_connection(backend(2).addr);
    lb.increment_connection(backend(3).addr);
    lb.increment_connection(backend(3).addr);
    assert_eq!(lb.next_backend(), Some(backend(2)));
    // A group with nothing active is passed over, whatever its counter.
    lb.record_probe("10.0.0.2", backend(2), false);
    assert_eq!(lb.connection_count("10.0.0.2"), Some(1));
    assert_eq!(lb.next_backend(), Some(backend(3)));
}

#[test]
fn least_connections_returns_the_first_active_backend_of_the_group() {
    let mut lb = LoadBalancer::new(LoadBalancerMode::LeastConnections);
    lb.add_backends(vec![(
        "a".to_string(),
        vec![(backend(1).addr, Some(Protocol::TCP)), (backend(2).addr, Some(Protocol::TCP))],
    )]);
    assert_eq!(lb.next_backend(), Some(backend(1)));
    assert_eq!(lb.next_backend(), Some(backend(1)));
    lb.record_probe("a", backend(1), false);
    assert_eq!(lb.next_backend(), Some(backend(2)));
}
