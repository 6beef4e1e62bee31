//! Core of a lightweight service-mesh client/server: a length-prefixed wire
//! protocol with streaming reassembly, pluggable service discovery, load
//! balancing, per-endpoint connection pooling, and the client/manager
//! orchestration that ties them into a service call.

use vstd::prelude::*;

pub mod json;
pub mod message;
pub mod protocol;
pub mod service;
pub mod load_balancer;
pub mod pool;
pub mod discovery;
pub mod client;
pub mod manager;
pub mod consul;

verus! {

/// Why an operation of the service pipeline failed.
#[derive(Clone, Copy, Debug, PartialEq, Eq, Structural)]
pub enum VSPError {
    /// No healthy instance of the requested service, or an unknown endpoint.
    NotFound,
    /// The load balancer returned nothing despite non-empty candidates.
    SelectionFailure,
    /// The connection pool is at capacity for the endpoint (backpressure).
    ConnectionExhausted,
    /// Malformed frame length, undecodable payload, or missing header/body.
    ProtocolError,
    /// The remote coordination service could not be reached.
    RemoteUnavailable,
}

} // verus!
