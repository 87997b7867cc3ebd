use sidelb::forwarder::{
    admit_flow, handle_tcp, handle_udp, Admission, DatagramAction, DatagramEvent, DatagramState,
    FlowEnd, StreamAction, StreamEvent, StreamState, DATAGRAM_REPLY_TIMEOUT_SECS,
};
use sidelb::load_balancer::LoadBalancer;
use sidelb::types::{Backend, Endpoint, LoadBalancerMode, Protocol};

const LABEL: &str = "10.0.0.1";

fn backend(protocol: Protocol) -> Backend {
    Backend { addr: Endpoint::from_octets(10, 0, 0, 1, 80), protocol }
}

fn registry(protocol: Protocol) -> LoadBalancer {
    let mut lb = LoadBalancer::new(LoadBalancerMode::RoundRobin);
    lb.add_backends(vec![(LABEL.to_string(), vec![(backend(protocol).addr, Some(protocol))])]);
    lb
}

#[test]
fn admission_counts_in_only_what_it_forwards() {
    let mut lb = registry(Protocol::TCP);
    assert_eq!(admit_flow(&mut lb, Protocol::TCP), Admission::Forward(backend(Protocol::TCP)));
    assert_eq!(lb.connection_count(LABEL), Some(1));
    assert_eq!(
        admit_flow(&mut lb, Protocol::UDP),
        Admission::ProtocolMismatch(backend(Protocol::TCP))
    );
    assert_eq!(lb.connection_count(LABEL), Some(1));
    let mut empty = LoadBalancer::new(LoadBalancerMode::RoundRobin);
    assert_eq!(admit_flow(&mut empty, Protocol::TCP), Admission::NoBackend);
}

#[test]
fn stream_without_backend_is_closed_at_once() {
    let mut lb = LoadBalancer::new(LoadBalancerMode::RoundRobin);
    let next = handle_tcp(&mut lb, StreamState::Accepted, StreamEvent::Start);
    assert_eq!(next, (StreamState::Closed, StreamAction::Close(FlowEnd::NoBackend)));
}

#[test]
fn stream_to_a_datagram_backend_is_closed_and_not_counted() {
    let mut lb = registry(Protocol::UDP);
    let next = handle_tcp(&mut lb, StreamState::Accepted, StreamEvent::Start);
    assert_eq!(next, (StreamState::Closed, StreamAction::Close(FlowEnd::ProtocolMismatch)));
    assert_eq!(lb.connection_count(LABEL), Some(0));
}

#[test]
fn stream_dial_failure_counts_the_flow_out() {
    let mut lb = registry(Protocol::TCP);
    let target = backend(Protocol::TCP);
    let (state, action) = handle_tcp(&mut lb, StreamState::Accepted, StreamEvent::Start);
    assert_eq!(state, StreamState::Dialing { backend: target });
    assert_eq!(action, StreamAction::Dial(target.addr));
    assert_eq!(lb.connection_count(LABEL), Some(1));
    let next = handle_tcp(&mut lb, state, StreamEvent::ConnectFailed);
    assert_eq!(next, (StreamState::Closed, StreamAction::Close(FlowEnd::DialFailure)));
    assert_eq!(lb.connection_count(LABEL), Some(0));
}

#[test]
fn stream_closes_when_both_directions_have_ended() {
    let mut lb = registry(Protocol::TCP);
    let target = backend(Protocol::TCP);
    let (state, _) = handle_tcp(&mut lb, StreamState::Accepted, StreamEvent::Start);
    let (state, action) = handle_tcp(&mut lb, state, StreamEvent::Connected);
    assert_eq!(action, StreamAction::Relay);
    assert_eq!(
        state,
        StreamState::Relaying { backend: target, client_done: false, server_done: false, clean: true }
    );
    let (state, action) = handle_tcp(&mut lb, state, StreamEvent::ServerToClientEnded { ok: true });
    assert_eq!(action, StreamAction::Wait);
    assert_eq!(lb.connection_count(LABEL), Some(1));
    // The same direction ending twice is not the other direction ending.
    let (state, action) = handle_tcp(&mut lb, state, StreamEvent::ServerToClientEnded { ok: true });
    assert_eq!(action, StreamAction::Ignore);
    assert_eq!(lb.connection_count(LABEL), Some(1));
    let next = handle_tcp(&mut lb, state, StreamEvent::ClientToServerEnded { ok: true });
    assert_eq!(next, (StreamState::Closed, StreamAction::Close(FlowEnd::Completed)));
    assert_eq!(lb.connection_count(LABEL), Some(0));
}

#[test]
fn stream_copy_error_still_waits_for_the_other_direction() {
    let mut lb = registry(Protocol::TCP);
    let (state, _) = handle_tcp(&mut lb, StreamState::Accepted, StreamEvent::Start);
    let (state, _) = handle_tcp(&mut lb, state, StreamEvent::Connected);
    let (state, action) = handle_tcp(&mut lb, state, StreamEvent::ClientToServerEnded { ok: false });
    assert_eq!(action, StreamAction::Wait);
    let next = handle_tcp(&mut lb, state, StreamEvent::ServerToClientEnded { ok: true });
    assert_eq!(next, (StreamState::Closed, StreamAction::Close(FlowEnd::CopyFailure)));
    assert_eq!(lb.connection_count(LABEL), Some(0));
}

#[test]
fn stream_ignores_events_that_do_not_belong() {
    let mut lb = registry(Protocol::TCP);
    let stray = [
        (StreamState::Accepted, StreamEvent::Connected),
        (StreamState::Accepted, StreamEvent::ClientToServerEnded { ok: true }),
        (StreamState::Closed, StreamEvent::Start),
        (StreamState::Closed, StreamEvent::ConnectFailed),
        (StreamState::Dialing { backend: backend(Protocol::TCP) }, StreamEvent::Start),
    ];
    for (state, event) in stray {
        assert_eq!(handle_tcp(&mut lb, state, event), (state, StreamAction::Ignore));
    }
    assert_eq!(lb.connection_count(LABEL), Some(0));
}

#[test]
fn datagram_without_backend_or_with_a_stream_backend_is_dropped() {
    let mut empty = LoadBalancer::new(LoadBalancerMode::RoundRobin);
    assert_eq!(
        handle_udp(&mut empty, DatagramState::Received, DatagramEvent::Start),
        (DatagramState::Done, DatagramAction::Drop(FlowEnd::NoBackend))
    );
    let mut lb = registry(Protocol::TCP);
    assert_eq!(
        handle_udp(&mut lb, DatagramState::Received, DatagramEvent::Start),
        (DatagramState::Done, DatagramAction::Drop(FlowEnd::ProtocolMismatch))
    );
    assert_eq!(lb.connection_count(LABEL), Some(0));
}

#[test]
fn datagram_reply_is_passed_back_and_the_flow_counted_out() {
    let mut lb = registry(Protocol::UDP);
    let target = backend(Protocol::UDP);
    let (state, action) = handle_udp(&mut lb, DatagramState::Received, DatagramEvent::Start);
    assert_eq!(state, DatagramState::Sending { backend: target });
    assert_eq!(action, DatagramAction::Send(target.addr));
    assert_eq!(lb.connection_count(LABEL), Some(1));
    let (state, action) = handle_udp(&mut lb, state, DatagramEvent::Sent);
    assert_eq!(state, DatagramState::AwaitingReply { backend: target });
    assert_eq!(action, DatagramAction::AwaitReply { timeout_secs: 5 });
    assert_eq!(DATAGRAM_REPLY_TIMEOUT_SECS, 5);
    let next = handle_udp(&mut lb, state, DatagramEvent::Replied);
    assert_eq!(next, (DatagramState::Done, DatagramAction::ReplyToClient));
    assert_eq!(lb.connection_count(LABEL), Some(0));
}

#[test]
fn datagram_backend_that_never_responds_restores_the_counter() {
    let mut lb = registry(Protocol::UDP);
    lb.increment_connection(backend(Protocol::UDP).addr);
    let before = lb.connection_count(LABEL);
    let (state, _) = handle_udp(&mut lb, DatagramState::Received, DatagramEvent::Start);
    let (state, _) = handle_udp(&mut lb, state, DatagramEvent::Sent);
    assert_eq!(lb.connection_count(LABEL), Some(2));
    let next = handle_udp(&mut lb, state, DatagramEvent::TimedOut);
    assert_eq!(next, (DatagramState::Done, DatagramAction::Drop(FlowEnd::RecvTimeout)));
    assert_eq!(lb.connection_count(LABEL), before);
    assert_eq!(
        handle_udp(&mut lb, DatagramState::Done, DatagramEvent::Replied),
        (DatagramState::Done, DatagramAction::Ignore)
    );
    assert_eq!(lb.connection_count(LABEL), before);
}

#[test]
fn datagram_failures_end_the_flow() {
    let target = backend(Protocol::UDP);
    let mut lb = registry(Protocol::UDP);
    let (state, _) = handle_udp(&mut lb, DatagramState::Received, DatagramEvent::Start);
    assert_eq!(
        handle_udp(&mut lb, state, DatagramEvent::SendFailed),
        (DatagramState::Done, DatagramAction::Drop(FlowEnd::SendFailure))
    );
    assert_eq!(lb.connection_count(LABEL), Some(0));
    let (state, _) = handle_udp(&mut lb, DatagramState::Received, DatagramEvent::Start);
    let (state, _) = handle_udp(&mut lb, state, DatagramEvent::Sent);
    assert_eq!(
        handle_udp(&mut lb, state, DatagramEvent::ReceiveFailed),
        (DatagramState::Done, DatagramAction::Drop(FlowEnd::ReceiveFailure))
    );
    assert_eq!(lb.connection_count(LABEL), Some(0));
    assert_eq!(
        handle_udp(&mut lb, DatagramState::Sending { backend: target }, DatagramEvent::TimedOut),
        (DatagramState::Sending { backend: target }, DatagramAction::Ignore)
    );
}

#[test]
fn flow_over_a_group_without_counter_leaves_it_reading_zero() {
    let mut lb = LoadBalancer::new(LoadBalancerMode::RoundRobin);
    let target = backend(Protocol::UDP);
    lb.update_dynamic_backends("ring:80", vec![(target.addr, Some(Protocol::UDP))]);
    lb.record_probe("ring:80", target, true);
    assert_eq!(lb.connection_count("ring:80"), None);
    let (state, _) = handle_udp(&mut lb, DatagramState::Received, DatagramEvent::Start);
    assert_eq!(lb.connection_count("ring:80"), Some(1));
    let (state, _) = handle_udp(&mut lb, state, DatagramEvent::Sent);
    let (state, _) = handle_udp(&mut lb, state, DatagramEvent::TimedOut);
    assert_eq!(state, DatagramState::Done);
    assert_eq!(lb.connection_count("ring:80"), Some(0));
}
