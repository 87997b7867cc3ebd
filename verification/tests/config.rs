use sidelb::config::{
    group_static_backends, parse_arguments, ring_domain_backends, ring_domain_target, BadInput,
};
use sidelb::load_balancer::LoadBalancer;
use sidelb::types::{Backend, Endpoint, LoadBalancerMode, Protocol};

fn args(words: &[&str]) -> Vec<String> {
    words.iter().map(|w| w.to_string()).collect()
}

fn bind() -> Option<Endpoint> {
    Some(Endpoint::from_octets(127, 0, 0, 1, 8080))
}

#[test]
fn mode_names_are_read_without_regard_to_case() {
    assert_eq!(LoadBalancerMode::from_lowercase("round-robin"), Some(LoadBalancerMode::RoundRobin));
    assert_eq!(
        LoadBalancerMode::from_lowercase("least-connections"),
        Some(LoadBalancerMode::LeastConnections)
    );
    assert_eq!(LoadBalancerMode::from_lowercase("Round-Robin"), None);
    assert_eq!(LoadBalancerMode::from_lowercase(""), None);
    assert_eq!(LoadBalancerMode::from_name("ROUND-robin"), Ok(LoadBalancerMode::RoundRobin));
    assert_eq!(
        LoadBalancerMode::from_name("Least-Connections"),
        Ok(LoadBalancerMode::LeastConnections)
    );
    assert_eq!(LoadBalancerMode::from_name("random"), Err(BadInput::UnknownMode));
    assert_eq!(LoadBalancerMode::from_name("round_robin"), Err(BadInput::UnknownMode));
}

#[test]
fn mode_parses_through_from_str() {
    assert_eq!("round-robin".parse::<LoadBalancerMode>(), Ok(LoadBalancerMode::RoundRobin));
    assert_eq!(
        "LEAST-CONNECTIONS".parse::<LoadBalancerMode>(),
        Ok(LoadBalancerMode::LeastConnections)
    );
    assert_eq!(
        "Weighted".parse::<LoadBalancerMode>(),
        Err("Invalid load balancer mode: Weighted".to_string())
    );
}

#[test]
fn protocol_names_are_read_without_regard_to_case() {
    assert_eq!(Protocol::from_lowercase("tcp"), Some(Protocol::TCP));
    assert_eq!(Protocol::from_lowercase("udp"), Some(Protocol::UDP));
    assert_eq!(Protocol::from_lowercase("UDP"), None);
    assert_eq!(Protocol::from_name("UDP"), Ok(Protocol::UDP));
    assert_eq!(Protocol::from_name("Tcp"), Ok(Protocol::TCP));
    assert_eq!(Protocol::from_name("sctp"), Err(BadInput::UnknownProtocol));
    assert_eq!(Protocol::from_name(""), Err(BadInput::UnknownProtocol));
}

#[test]
fn bind_address_alone_gives_the_defaults() {
    let asked = parse_arguments(&args(&["127.0.0.1:8080"]), bind()).unwrap();
    assert_eq!(asked.bind_addr, Endpoint::from_octets(127, 0, 0, 1, 8080));
    assert!(asked.backends.is_empty());
    assert!(asked.ignored.is_empty());
    assert_eq!(asked.ring_domain, None);
    assert_eq!(asked.mode, LoadBalancerMode::RoundRobin);
    assert_eq!(asked.proto, Protocol::TCP);
}

#[test]
fn empty_command_line_is_refused() {
    assert_eq!(parse_arguments(&[], bind()).unwrap_err(), BadInput::MissingBindAddress);
    assert_eq!(parse_arguments(&[], None).unwrap_err(), BadInput::MissingBindAddress);
}

#[test]
fn first_argument_that_is_no_socket_address_is_refused() {
    assert_eq!(
        parse_arguments(&args(&["localhost"]), None).unwrap_err(),
        BadInput::InvalidBindAddress
    );
    // It is refused before any flag is looked at.
    assert_eq!(
        parse_arguments(&args(&["mode=least-connections", "mode=fastest"]), None).unwrap_err(),
        BadInput::InvalidBindAddress
    );
    assert_eq!(
        parse_arguments(&args(&["127.0.0.1:8080", "mode=fastest"]), bind()).unwrap_err(),
        BadInput::UnknownMode
    );
}

#[test]
fn flags_are_read_in_any_order() {
    let asked = parse_arguments(&args(&[
        "127.0.0.1:8080",
        "proto=udp",
        "mode=least-connections",
        "ring_domain=x.example:53",
        "backends=10.0.0.1:80,10.0.0.2:80",
    ]), bind())
    .unwrap();
    assert_eq!(asked.bind_addr, Endpoint::from_octets(127, 0, 0, 1, 8080));
    assert_eq!(asked.backends, vec!["10.0.0.1:80".to_string(), "10.0.0.2:80".to_string()]);
    assert_eq!(asked.ring_domain, Some("x.example:53".to_string()));
    assert_eq!(asked.mode, LoadBalancerMode::LeastConnections);
    assert_eq!(asked.proto, Protocol::UDP);
}

#[test]
fn backend_lists_are_trimmed_and_add_up() {
    let asked = parse_arguments(&args(&[
        "0.0.0.0:1",
        "backends= 10.0.0.1:80 ,, ,10.0.0.2:80,",
        "backends=",
        "backends=not an address",
        "backends=10.0.0.3:80",
    ]), bind())
    .unwrap();
    assert_eq!(
        asked.backends,
        vec![
            "10.0.0.1:80".to_string(),
            "10.0.0.2:80".to_string(),
            "not an address".to_string(),
            "10.0.0.3:80".to_string(),
        ]
    );
    assert_eq!(asked.ignored, vec!["backends=".to_string()]);
}

#[test]
fn later_flags_replace_earlier_ones() {
    let asked = parse_arguments(&args(&[
        "0.0.0.0:1",
        "mode=least-connections",
        "ring_domain=a:1",
        "proto=udp",
        "mode=ROUND-ROBIN",
        "ring_domain=",
        "proto=TCP",
    ]), bind())
    .unwrap();
    assert_eq!(asked.mode, LoadBalancerMode::RoundRobin);
    assert_eq!(asked.ring_domain, Some(String::new()));
    assert_eq!(asked.proto, Protocol::TCP);
}

#[test]
fn help_switches_and_unknown_arguments_are_passed_over() {
    let asked = parse_arguments(&args(&[
        "0.0.0.0:1",
        "-h",
        "--help",
        "verbose",
        "Backends=10.0.0.1:80",
        " mode=least-connections",
        "mode",
    ]), bind())
    .unwrap();
    assert!(asked.backends.is_empty());
    assert_eq!(asked.mode, LoadBalancerMode::RoundRobin);
    // The help switches are passed over in silence, the others are listed.
    assert_eq!(
        asked.ignored,
        vec![
            "verbose".to_string(),
            "Backends=10.0.0.1:80".to_string(),
            " mode=least-connections".to_string(),
            "mode".to_string(),
        ]
    );
    // The first argument is never read as a flag.
    let asked = parse_arguments(&args(&["mode=least-connections"]), bind()).unwrap();
    assert_eq!(asked.mode, LoadBalancerMode::RoundRobin);
    assert!(asked.ignored.is_empty());
}

#[test]
fn unknown_mode_or_protocol_is_refused_first_come_first() {
    assert_eq!(
        parse_arguments(&args(&["0.0.0.0:1", "mode=fastest"]), bind()).unwrap_err(),
        BadInput::UnknownMode
    );
    assert_eq!(
        parse_arguments(&args(&["0.0.0.0:1", "proto=icmp"]), bind()).unwrap_err(),
        BadInput::UnknownProtocol
    );
    assert_eq!(
        parse_arguments(&args(&["0.0.0.0:1", "proto=", "mode=fastest"]), bind()).unwrap_err(),
        BadInput::UnknownProtocol
    );
    assert_eq!(
        parse_arguments(&args(&["0.0.0.0:1", "mode=", "proto=icmp"]), bind()).unwrap_err(),
        BadInput::UnknownMode
    );
}

#[test]
fn ring_domain_is_cut_at_its_first_colon() {
    assert_eq!(ring_domain_target("x.example:53"), Ok(("x.example".to_string(), 53)));
    assert_eq!(ring_domain_target("localhost:+8080"), Ok(("localhost".to_string(), 8080)));
    assert_eq!(ring_domain_target(":65535"), Ok((String::new(), 65535)));
    assert_eq!(ring_domain_target("h\u{e9}te:0080"), Ok(("h\u{e9}te".to_string(), 80)));
}

#[test]
fn ring_domain_without_a_usable_port_is_refused() {
    assert_eq!(ring_domain_target("x.example"), Err(BadInput::MissingPort));
    assert_eq!(ring_domain_target(""), Err(BadInput::MissingPort));
    assert_eq!(ring_domain_target("x.example:"), Err(BadInput::InvalidPort));
    assert_eq!(ring_domain_target("x.example:http"), Err(BadInput::InvalidPort));
    assert_eq!(ring_domain_target("x.example:65536"), Err(BadInput::InvalidPort));
    assert_eq!(ring_domain_target("x.example:-1"), Err(BadInput::InvalidPort));
    assert_eq!(ring_domain_target("x.example: 53"), Err(BadInput::InvalidPort));
    assert_eq!(ring_domain_target("[::1]:53"), Err(BadInput::InvalidPort));
}

#[test]
fn resolved_addresses_carry_the_protocol_as_hint() {
    let addresses = vec![Endpoint::from_octets(1, 1, 1, 1, 53), Endpoint::from_octets(2, 2, 2, 2, 53)];
    assert_eq!(
        ring_domain_backends(&addresses, Protocol::UDP),
        vec![(addresses[0], Some(Protocol::UDP)), (addresses[1], Some(Protocol::UDP))]
    );
    assert_eq!(ring_domain_backends(&vec![], Protocol::TCP), vec![]);
}

#[test]
fn static_backends_that_share_a_host_share_a_group() {
    let a80 = Endpoint::from_octets(10, 0, 0, 1, 80);
    let b80 = Endpoint::from_octets(10, 0, 0, 2, 80);
    let a81 = Endpoint::from_octets(10, 0, 0, 1, 81);
    let entries = vec![
        ("10.0.0.1".to_string(), a80),
        ("10.0.0.2".to_string(), b80),
        ("10.0.0.1".to_string(), a81),
    ];
    let groups = group_static_backends(&entries, Protocol::TCP);
    assert_eq!(
        groups,
        vec![
            ("10.0.0.1".to_string(), vec![(a80, Some(Protocol::TCP)), (a81, Some(Protocol::TCP))]),
            ("10.0.0.2".to_string(), vec![(b80, Some(Protocol::TCP))]),
        ]
    );
    assert_eq!(group_static_backends(&vec![], Protocol::UDP), vec![]);
    let mut lb = LoadBalancer::new(LoadBalancerMode::RoundRobin);
    lb.add_backends(groups);
    lb.increment_connection(a81);
    assert_eq!(lb.connection_count("10.0.0.1"), Some(1));
    assert_eq!(
        lb.active_backends("10.0.0.1"),
        Some(vec![
            Backend { addr: a80, protocol: Protocol::TCP },
            Backend { addr: a81, protocol: Protocol::TCP },
        ])
    );
}
