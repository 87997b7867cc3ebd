//! A layer-4 load balancer's decision core: the backend registry with its
//! configured and active views, the selection policies, the bookkeeping of
//! health probes and of name resolution, and the per-flow decisions of the
//! stream and datagram forwarders.
//!
//! Nothing here touches a socket or a clock. Callers perform the I/O, hand
//! the outcomes in as plain values and carry out the actions that come back.

pub mod config;
pub mod control;
pub mod counting;
pub mod fairness;
pub mod forwarder;
pub mod health;
pub mod invariants;
pub mod laws;
pub mod load_balancer;
pub mod model;
pub mod text;
pub mod types;
