//! The plain values that the registry and the forwarders exchange.

use vstd::prelude::*;

verus! {

/// The transport a listener accepts or a backend speaks.
#[derive(Clone, Copy, Debug, PartialEq, Eq, Structural, Hash)]
pub enum Protocol {
    TCP,
    UDP,
}

/// An IPv4 address, as its 32 bits in network order, with a port.
#[derive(Clone, Copy, Debug, PartialEq, Eq, Structural, Hash)]
pub struct EndpointV4 {
    pub ip: u32,
    pub port: u16,
}

/// An IPv6 address, as its 128 bits in network order, with a port, flow
/// information and scope identifier.
#[derive(Clone, Copy, Debug, PartialEq, Eq, Structural, Hash)]
pub struct EndpointV6 {
    pub ip: u128,
    pub port: u16,
    pub flowinfo: u32,
    pub scope_id: u32,
}

/// A socket address. Two endpoints are the same exactly when every part of
/// them agrees.
#[derive(Clone, Copy, Debug, PartialEq, Eq, Structural, Hash)]
pub enum Endpoint {
    V4(EndpointV4),
    V6(EndpointV6),
}

impl Endpoint {
    /// The IPv4 address `a.b.c.d`, most significant octet first.
    pub open spec fn ipv4_bits(a: u8, b: u8, c: u8, d: u8) -> int {
        a as int * 0x100_0000 + b as int * 0x1_0000 + c as int * 0x100 + d as int
    }

    /// The endpoint `a.b.c.d:port`.
    pub fn from_octets(a: u8, b: u8, c: u8, d: u8, port: u16) -> (endpoint: Endpoint)
        ensures
            endpoint == Endpoint::V4(
                EndpointV4 { ip: Endpoint::ipv4_bits(a, b, c, d) as u32, port },
            ),
            Endpoint::ipv4_bits(a, b, c, d) <= u32::MAX,
    {
        let hi: u32 = a as u32 * 0x100_0000 + b as u32 * 0x1_0000;
        let lo: u32 = c as u32 * 0x100 + d as u32;
        Endpoint::V4(EndpointV4 { ip: hi + lo, port })
    }
}

/// A forwarding target: where it listens and what it speaks.
///
/// The registry tells backends apart by `addr` alone.
#[derive(Clone, Copy, Debug, PartialEq, Eq, Structural, Hash)]
pub struct Backend {
    pub addr: Endpoint,
    pub protocol: Protocol,
}

impl Backend {
    /// The backend for an endpoint and an optional protocol hint; an absent
    /// hint means a stream backend.
    pub open spec fn spec_from_hint(entry: (Endpoint, Option<Protocol>)) -> Backend {
        Backend {
            addr: entry.0,
            protocol: match entry.1 {
                Some(protocol) => protocol,
                None => Protocol::TCP,
            },
        }
    }

    /// The backend for an endpoint and an optional protocol hint; an absent
    /// hint means a stream backend.
    #[verifier::when_used_as_spec(spec_from_hint)]
    pub fn from_hint(entry: (Endpoint, Option<Protocol>)) -> (backend: Backend)
        ensures
            backend == Backend::spec_from_hint(entry),
    {
        let protocol = match entry.1 {
            Some(protocol) => protocol,
            None => Protocol::TCP,
        };
        Backend { addr: entry.0, protocol }
    }
}

/// How the registry picks among the active backends.
#[derive(Clone, Copy, Debug, PartialEq, Eq, Structural, Hash)]
pub enum LoadBalancerMode {
    RoundRobin,
    LeastConnections,
}

} // verus!
