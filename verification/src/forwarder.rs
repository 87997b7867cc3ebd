//! The decisions of the two forwarders.
//!
//! A forwarder owns sockets; this module owns none. Each flow is a small
//! state machine: the caller reports what happened on the wire as an event,
//! and gets back the flow's next state and the one thing to do next. The
//! registry's counter for the chosen backend goes up when a flow is
//! admitted and comes down when the flow ends, whichever way it ends.

use crate::counting::{lemma_active_has_owner, lemma_count_in_then_out, seeded_from};
use crate::laws::lemma_selection;
use crate::load_balancer::LoadBalancer;
use crate::model::RegistryView;
use crate::types::{Backend, Endpoint, Protocol};
use vstd::prelude::*;

verus! {

/// How long the datagram forwarder waits for a backend's reply, in seconds.
pub const DATAGRAM_REPLY_TIMEOUT_SECS: u64 = 5;

/// Why a flow ended.
#[derive(Clone, Copy, Debug, PartialEq, Eq, Structural)]
pub enum FlowEnd {
    /// No backend was active.
    NoBackend,
    /// The selected backend speaks the other protocol.
    ProtocolMismatch,
    /// The stream to the backend could not be opened.
    DialFailure,
    /// Both directions of a stream ended, at least one of them by an error.
    CopyFailure,
    /// The datagram could not be sent to the backend.
    SendFailure,
    /// The backend's reply could not be received.
    ReceiveFailure,
    /// The backend did not reply in time.
    RecvTimeout,
    /// The flow ran to its end.
    Completed,
}

/// What the registry says to a new flow.
#[derive(Clone, Copy, Debug, PartialEq, Eq, Structural)]
pub enum Admission {
    /// Forward to this backend; its group's counter has gone up.
    Forward(Backend),
    /// Nothing is active.
    NoBackend,
    /// This backend was selected and speaks the other protocol.
    ProtocolMismatch(Backend),
}

/// The registry and the answer after a flow arrives at a listener that
/// speaks `listener`: a backend is selected, and if it speaks the listener's
/// protocol its group's counter goes up.
pub open spec fn admitted(s: RegistryView, listener: Protocol) -> (RegistryView, Admission) {
    match s.selection() {
        None => (s.after_select(), Admission::NoBackend),
        Some(backend) => if backend.protocol == listener {
            (s.after_select().increment(backend.addr), Admission::Forward(backend))
        } else {
            (s.after_select(), Admission::ProtocolMismatch(backend))
        },
    }
}

/// Selects a backend for a flow that arrived at a listener speaking
/// `listener`, and counts the flow in if it can be forwarded.
pub fn admit_flow(lb: &mut LoadBalancer, listener: Protocol) -> (admission: Admission)
    requires
        old(lb).wf(),
    ensures
        final(lb).wf(),
        (final(lb)@, admission) == admitted(old(lb)@, listener),
{
    match lb.next_backend() {
        None => Admission::NoBackend,
        Some(backend) => {
            if backend.protocol == listener {
                lb.increment_connection(backend.addr);
                Admission::Forward(backend)
            } else {
                Admission::ProtocolMismatch(backend)
            }
        },
    }
}

// ----- streams -----

/// Where a stream flow stands.
#[derive(Clone, Copy, Debug, PartialEq, Eq, Structural)]
pub enum StreamState {
    /// The client has connected; nothing is decided yet.
    Accepted,
    /// The backend is being dialed.
    Dialing { backend: Backend },
    /// Bytes are being copied both ways. Each flag says whether that
    /// direction has ended, and `clean` whether every ended direction ended
    /// without an error.
    Relaying { backend: Backend, client_done: bool, server_done: bool, clean: bool },
    /// The flow is over.
    Closed,
}

/// What happened to a stream flow.
#[derive(Clone, Copy, Debug, PartialEq, Eq, Structural)]
pub enum StreamEvent {
    /// The flow is to be started.
    Start,
    /// The dial succeeded.
    Connected,
    /// The dial failed.
    ConnectFailed,
    /// Copying from client to backend has ended, cleanly or not.
    ClientToServerEnded { ok: bool },
    /// Copying from backend to client has ended, cleanly or not.
    ServerToClientEnded { ok: bool },
}

/// What to do next for a stream flow.
#[derive(Clone, Copy, Debug, PartialEq, Eq, Structural)]
pub enum StreamAction {
    /// Open a stream to this endpoint.
    Dial(Endpoint),
    /// Start copying in both directions.
    Relay,
    /// Keep waiting for the other direction.
    Wait,
    /// Close both connections.
    Close(FlowEnd),
    /// The event does not belong to this state; nothing is to be done.
    Ignore,
}

/// One step of a stream flow: the registry, the state and the action that
/// follow from a registry, a state and an event.
pub open spec fn stream_step(s: RegistryView, state: StreamState, event: StreamEvent) -> (
    RegistryView,
    StreamState,
    StreamAction,
) {
    match (state, event) {
        (StreamState::Accepted, StreamEvent::Start) => match admitted(s, Protocol::TCP) {
            (t, Admission::Forward(backend)) => (
                t,
                StreamState::Dialing { backend },
                StreamAction::Dial(backend.addr),
            ),
            (t, Admission::NoBackend) => (
                t,
                StreamState::Closed,
                StreamAction::Close(FlowEnd::NoBackend),
            ),
            (t, Admission::ProtocolMismatch(_)) => (
                t,
                StreamState::Closed,
                StreamAction::Close(FlowEnd::ProtocolMismatch),
            ),
        },
        (StreamState::Dialing { backend }, StreamEvent::Connected) => (
            s,
            StreamState::Relaying { backend, client_done: false, server_done: false, clean: true },
            StreamAction::Relay,
        ),
        (StreamState::Dialing { backend }, StreamEvent::ConnectFailed) => (
            s.decrement(backend.addr),
            StreamState::Closed,
            StreamAction::Close(FlowEnd::DialFailure),
        ),
        (
            StreamState::Relaying { backend, client_done, server_done, clean },
            StreamEvent::ClientToServerEnded { ok },
        ) => if client_done {
            (s, state, StreamAction::Ignore)
        } else {
            relay_progress(s, backend, true, server_done, clean && ok)
        },
        (
            StreamState::Relaying { backend, client_done, server_done, clean },
            StreamEvent::ServerToClientEnded { ok },
        ) => if server_done {
            (s, state, StreamAction::Ignore)
        } else {
            relay_progress(s, backend, client_done, true, clean && ok)
        },
        _ => (s, state, StreamAction::Ignore),
    }
}

/// A relay after one more direction has ended: it goes on until both have
/// ended, and then the flow is counted out and closed.
pub open spec fn relay_progress(
    s: RegistryView,
    backend: Backend,
    client_done: bool,
    server_done: bool,
    clean: bool,
) -> (RegistryView, StreamState, StreamAction) {
    if client_done && server_done {
        (
            s.decrement(backend.addr),
            StreamState::Closed,
            StreamAction::Close(
                if clean {
                    FlowEnd::Completed
                } else {
                    FlowEnd::CopyFailure
                },
            ),
        )
    } else {
        (s, StreamState::Relaying { backend, client_done, server_done, clean }, StreamAction::Wait)
    }
}

/// Counts a relay's ended direction in, and the flow out once both have
/// ended.
fn relay_step(
    lb: &mut LoadBalancer,
    backend: Backend,
    client_done: bool,
    server_done: bool,
    clean: bool,
) -> (next: (StreamState, StreamAction))
    requires
        old(lb).wf(),
    ensures
        final(lb).wf(),
        (final(lb)@, next.0, next.1) == relay_progress(
            old(lb)@,
            backend,
            client_done,
            server_done,
            clean,
        ),
{
    if client_done && server_done {
        lb.decrement_connection(backend.addr);
        let end = if clean {
            FlowEnd::Completed
        } else {
            FlowEnd::CopyFailure
        };
        (StreamState::Closed, StreamAction::Close(end))
    } else {
        (StreamState::Relaying { backend, client_done, server_done, clean }, StreamAction::Wait)
    }
}

/// Decides the next step of one stream flow.
///
/// A flow that starts is given a backend: with none active, or one that
/// speaks datagrams, it is closed at once; otherwise the backend's group is
/// counted up and the backend is to be dialed. A failed dial closes the
/// flow. After a successful dial both directions are copied, and when both
/// have ended the flow is closed. Whenever a flow that was counted up
/// closes, it is counted down, once. An event that does not belong to the
/// state changes nothing.
pub fn handle_tcp(lb: &mut LoadBalancer, state: StreamState, event: StreamEvent) -> (next: (
    StreamState,
    StreamAction,
))
    requires
        old(lb).wf(),
    ensures
        final(lb).wf(),
        (final(lb)@, next.0, next.1) == stream_step(old(lb)@, state, event),
{
    match state {
        StreamState::Accepted => match event {
            StreamEvent::Start => match admit_flow(lb, Protocol::TCP) {
                Admission::Forward(backend) => (
                    StreamState::Dialing { backend },
                    StreamAction::Dial(backend.addr),
                ),
                Admission::NoBackend => (
                    StreamState::Closed,
                    StreamAction::Close(FlowEnd::NoBackend),
                ),
                Admission::ProtocolMismatch(_) => (
                    StreamState::Closed,
                    StreamAction::Close(FlowEnd::ProtocolMismatch),
                ),
            },
            _ => (state, StreamAction::Ignore),
        },
        StreamState::Dialing { backend } => match event {
            StreamEvent::Connected => (
                StreamState::Relaying {
                    backend,
                    client_done: false,
                    server_done: false,
                    clean: true,
                },
                StreamAction::Relay,
            ),
            StreamEvent::ConnectFailed => {
                lb.decrement_connection(backend.addr);
                (StreamState::Closed, StreamAction::Close(FlowEnd::DialFailure))
            },
            _ => (state, StreamAction::Ignore),
        },
        StreamState::Relaying { backend, client_done, server_done, clean } => match event {
            StreamEvent::ClientToServerEnded { ok } => {
                if client_done {
                    (state, StreamAction::Ignore)
                } else {
                    relay_step(lb, backend, true, server_done, clean && ok)
                }
            },
            StreamEvent::ServerToClientEnded { ok } => {
                if server_done {
                    (state, StreamAction::Ignore)
                } else {
                    relay_step(lb, backend, client_done, true, clean && ok)
                }
            },
            _ => (state, StreamAction::Ignore),
        },
        StreamState::Closed => (state, StreamAction::Ignore),
    }
}

// ----- datagrams -----

/// Where a datagram flow stands.
#[derive(Clone, Copy, Debug, PartialEq, Eq, Structural)]
pub enum DatagramState {
    /// A packet has arrived; nothing is decided yet.
    Received,
    /// The packet is being sent to the backend from a socket of its own.
    Sending { backend: Backend },
    /// The packet is sent; the backend's reply is awaited.
    AwaitingReply { backend: Backend },
    /// The flow is over.
    Done,
}

/// What happened to a datagram flow.
#[derive(Clone, Copy, Debug, PartialEq, Eq, Structural)]
pub enum DatagramEvent {
    /// The flow is to be started.
    Start,
    /// The packet went out to the backend.
    Sent,
    /// No socket could be bound, or the send failed.
    SendFailed,
    /// The backend replied.
    Replied,
    /// Receiving the reply failed.
    ReceiveFailed,
    /// No reply came in time.
    TimedOut,
}

/// What to do next for a datagram flow.
#[derive(Clone, Copy, Debug, PartialEq, Eq, Structural)]
pub enum DatagramAction {
    /// Bind a socket for this flow and send the packet to this endpoint.
    Send(Endpoint),
    /// Wait for one reply, no longer than this many seconds.
    AwaitReply { timeout_secs: u64 },
    /// Send the reply back to where the packet came from; the flow is over.
    ReplyToClient,
    /// Send nothing back; the flow is over.
    Drop(FlowEnd),
    /// The event does not belong to this state; nothing is to be done.
    Ignore,
}

/// One step of a datagram flow: the registry, the state and the action that
/// follow from a registry, a state and an event.
pub open spec fn datagram_step(s: RegistryView, state: DatagramState, event: DatagramEvent) -> (
    RegistryView,
    DatagramState,
    DatagramAction,
) {
    match (state, event) {
        (DatagramState::Received, DatagramEvent::Start) => match admitted(s, Protocol::UDP) {
            (t, Admission::Forward(backend)) => (
                t,
                DatagramState::Sending { backend },
                DatagramAction::Send(backend.addr),
            ),
            (t, Admission::NoBackend) => (
                t,
                DatagramState::Done,
                DatagramAction::Drop(FlowEnd::NoBackend),
            ),
            (t, Admission::ProtocolMismatch(_)) => (
                t,
                DatagramState::Done,
                DatagramAction::Drop(FlowEnd::ProtocolMismatch),
            ),
        },
        (DatagramState::Sending { backend }, DatagramEvent::Sent) => (
            s,
            DatagramState::AwaitingReply { backend },
            DatagramAction::AwaitReply { timeout_secs: DATAGRAM_REPLY_TIMEOUT_SECS },
        ),
        (DatagramState::Sending { backend }, DatagramEvent::SendFailed) => (
            s.decrement(backend.addr),
            DatagramState::Done,
            DatagramAction::Drop(FlowEnd::SendFailure),
        ),
        (DatagramState::AwaitingReply { backend }, DatagramEvent::Replied) => (
            s.decrement(backend.addr),
            DatagramState::Done,
            DatagramAction::ReplyToClient,
        ),
        (DatagramState::AwaitingReply { backend }, DatagramEvent::ReceiveFailed) => (
            s.decrement(backend.addr),
            DatagramState::Done,
            DatagramAction::Drop(FlowEnd::ReceiveFailure),
        ),
        (DatagramState::AwaitingReply { backend }, DatagramEvent::TimedOut) => (
            s.decrement(backend.addr),
            DatagramState::Done,
            DatagramAction::Drop(FlowEnd::RecvTimeout),
        ),
        _ => (s, state, DatagramAction::Ignore),
    }
}

/// Decides the next step of one datagram flow.
///
/// A packet that arrives is given a backend: with none active, or one that
/// speaks streams, it is dropped; otherwise the backend's group is counted
/// up and the packet is to be sent from a socket of the flow's own. After
/// the send one reply is awaited for a bounded time and passed back to the
/// client if it comes. Whenever a flow that was counted up ends, it is
/// counted down, once. An event that does not belong to the state changes
/// nothing.
pub fn handle_udp(lb: &mut LoadBalancer, state: DatagramState, event: DatagramEvent) -> (next: (
    DatagramState,
    DatagramAction,
))
    requires
        old(lb).wf(),
    ensures
        final(lb).wf(),
        (final(lb)@, next.0, next.1) == datagram_step(old(lb)@, state, event),
{
    match state {
        DatagramState::Received => match event {
            DatagramEvent::Start => match admit_flow(lb, Protocol::UDP) {
                Admission::Forward(backend) => (
                    DatagramState::Sending { backend },
                    DatagramAction::Send(backend.addr),
                ),
                Admission::NoBackend => (
                    DatagramState::Done,
                    DatagramAction::Drop(FlowEnd::NoBackend),
                ),
                Admission::ProtocolMismatch(_) => (
                    DatagramState::Done,
                    DatagramAction::Drop(FlowEnd::ProtocolMismatch),
                ),
            },
            _ => (state, DatagramAction::Ignore),
        },
        DatagramState::Sending { backend } => match event {
            DatagramEvent::Sent => (
                DatagramState::AwaitingReply { backend },
                DatagramAction::AwaitReply { timeout_secs: DATAGRAM_REPLY_TIMEOUT_SECS },
            ),
            DatagramEvent::SendFailed => {
                lb.decrement_connection(backend.addr);
                (DatagramState::Done, DatagramAction::Drop(FlowEnd::SendFailure))
            },
            _ => (state, DatagramAction::Ignore),
        },
        DatagramState::AwaitingReply { backend } => match event {
            DatagramEvent::Replied => {
                lb.decrement_connection(backend.addr);
                (DatagramState::Done, DatagramAction::ReplyToClient)
            },
            DatagramEvent::ReceiveFailed => {
                lb.decrement_connection(backend.addr);
                (DatagramState::Done, DatagramAction::Drop(FlowEnd::ReceiveFailure))
            },
            DatagramEvent::TimedOut => {
                lb.decrement_connection(backend.addr);
                (DatagramState::Done, DatagramAction::Drop(FlowEnd::RecvTimeout))
            },
            _ => (state, DatagramAction::Ignore),
        },
        DatagramState::Done => (state, DatagramAction::Ignore),
    }
}

// ----- whole flows -----

/// The registry and the state of a stream flow after `events`, in order,
/// with nothing else touching the registry meanwhile.
pub open spec fn stream_run(s: RegistryView, state: StreamState, events: Seq<StreamEvent>) -> (
    RegistryView,
    StreamState,
)
    decreases events.len(),
{
    if events.len() == 0 {
        (s, state)
    } else {
        let before = stream_run(s, state, events.drop_last());
        let after = stream_step(before.0, before.1, events.last());
        (after.0, after.1)
    }
}

/// The registry and the state of a datagram flow after `events`, in order,
/// with nothing else touching the registry meanwhile.
pub open spec fn datagram_run(s: RegistryView, state: DatagramState, events: Seq<DatagramEvent>) -> (
    RegistryView,
    DatagramState,
)
    decreases events.len(),
{
    if events.len() == 0 {
        (s, state)
    } else {
        let before = datagram_run(s, state, events.drop_last());
        let after = datagram_step(before.0, before.1, events.last());
        (after.0, after.1)
    }
}

/// No counter is at the largest value it can hold.
pub open spec fn counters_have_room(s: RegistryView) -> bool {
    forall|i: int| 0 <= i < s.groups.len() ==> (#[trigger] s.groups[i]).load() < usize::MAX
}

/// What admission leaves behind: the groups as they were, but for the
/// counter of the backend's group when a flow is forwarded, and then the
/// backend was active.
pub proof fn lemma_admitted(s: RegistryView, listener: Protocol)
    requires
        s.wf(),
    ensures
        ({
            let (t, admission) = admitted(s, listener);
            &&& t.mode == s.mode
            &&& admission is NoBackend <==> !s.has_active()
            &&& match admission {
                Admission::Forward(backend) => {
                    &&& s.is_active(backend)
                    &&& backend.protocol == listener
                    &&& t.groups == s.increment(backend.addr).groups
                },
                Admission::ProtocolMismatch(backend) => {
                    &&& s.is_active(backend)
                    &&& backend.protocol != listener
                    &&& t.groups == s.groups
                },
                Admission::NoBackend => t == s,
            }
        }),
{
    lemma_selection(s);
}

/// A stream flow that has closed, however it went, has left every group as
/// it found it, but that a group without a counter may now have one at
/// zero; one that is still open has counted its backend in, once.
pub proof fn lemma_stream_flow_settles(s: RegistryView, events: Seq<StreamEvent>)
    requires
        s.wf(),
        counters_have_room(s),
    ensures
        ({
            let (t, state) = stream_run(s, StreamState::Accepted, events);
            match state {
                StreamState::Accepted => t == s,
                StreamState::Dialing { backend } => s.is_active(backend) && t.groups == s.increment(
                    backend.addr,
                ).groups,
                StreamState::Relaying { backend, .. } => s.is_active(backend) && t.groups
                    == s.increment(backend.addr).groups,
                StreamState::Closed => seeded_from(s.groups, t.groups),
            }
        }),
    decreases events.len(),
{
    if events.len() > 0 {
        lemma_stream_flow_settles(s, events.drop_last());
        let (mid, state) = stream_run(s, StreamState::Accepted, events.drop_last());
        lemma_admitted(s, Protocol::TCP);
        match state {
            StreamState::Dialing { backend } => {
                lemma_flow_counted_out(s, mid, backend);
            },
            StreamState::Relaying { backend, .. } => {
                lemma_flow_counted_out(s, mid, backend);
            },
            _ => {},
        }
    }
}

/// A datagram flow that is done, however it went, has left every group as
/// it found it, but that a group without a counter may now have one at
/// zero; one that is still under way has counted its backend in, once.
pub proof fn lemma_datagram_flow_settles(s: RegistryView, events: Seq<DatagramEvent>)
    requires
        s.wf(),
        counters_have_room(s),
    ensures
        ({
            let (t, state) = datagram_run(s, DatagramState::Received, events);
            match state {
                DatagramState::Received => t == s,
                DatagramState::Sending { backend } => s.is_active(backend) && t.groups
                    == s.increment(backend.addr).groups,
                DatagramState::AwaitingReply { backend } => s.is_active(backend) && t.groups
                    == s.increment(backend.addr).groups,
                DatagramState::Done => seeded_from(s.groups, t.groups),
            }
        }),
    decreases events.len(),
{
    if events.len() > 0 {
        lemma_datagram_flow_settles(s, events.drop_last());
        let (mid, state) = datagram_run(s, DatagramState::Received, events.drop_last());
        lemma_admitted(s, Protocol::UDP);
        match state {
            DatagramState::Sending { backend } => {
                lemma_flow_counted_out(s, mid, backend);
            },
            DatagramState::AwaitingReply { backend } => {
                lemma_flow_counted_out(s, mid, backend);
            },
            _ => {},
        }
    }
}

/// Counting a flow out of a registry that differs from `s` only by having
/// counted it in gives back the groups of `s`, every counter reading what
/// it read.
proof fn lemma_flow_counted_out(s: RegistryView, mid: RegistryView, backend: Backend)
    requires
        s.wf(),
        counters_have_room(s),
        s.is_active(backend),
        mid.groups == s.increment(backend.addr).groups,
    ensures
        seeded_from(s.groups, mid.decrement(backend.addr).groups),
{
    lemma_active_has_owner(s, backend);
    lemma_count_in_then_out(s, backend.addr);
    let up = s.increment(backend.addr);
    assert(mid.decrement(backend.addr).groups =~= up.decrement(backend.addr).groups);
}

} // verus!
