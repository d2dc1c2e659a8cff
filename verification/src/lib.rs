//! Transport core for a client of a distributed document-search HTTP API:
//! percent encoding of URL path parts, a connection pool with node liveness
//! tracking and round-robin selection, request authentication (basic
//! credentials and canonical-request signing), body framing for single-JSON
//! and newline-delimited-JSON payloads, and the retry dispatch state machine.

pub mod auth;
pub mod body;
pub mod encoding;
pub mod parts;
pub mod pool;
pub mod transport;

use vstd::prelude::*;

verus! {

/// The failure recorded when retries run out: the outcome of the last attempt.
#[derive(Clone, Copy, Debug, PartialEq, Eq, Structural)]
pub enum LastFailure {
    /// The last attempt failed at the connection level (timeout, refused, ...).
    Connection,
    /// The last attempt got an HTTP response with this (retryable) status.
    Status(u16),
}

/// Every failure the transport can hand to a caller. A caller never sees a
/// raw underlying network or library error: it sees one of these kinds.
#[derive(Clone, Copy, Debug, PartialEq, Eq, Structural)]
pub enum TransportError {
    /// A malformed URL segment (a required identifier was empty). Caller
    /// error; never retried.
    InvalidPart,
    /// Credentials were absent or expired at signing time. Fatal for the
    /// call; never retried.
    SigningError,
    /// A connection-level failure (network, TLS, DNS). Retryable up to the
    /// policy limit; drives dead-marking of the node.
    ConnectionFailure,
    /// The server responded with this status. Returned verbatim; retried
    /// only when the policy lists the status as retryable.
    HttpStatus(u16),
    /// Retries were exhausted; wraps the last underlying failure.
    MaxRetriesExceeded(LastFailure),
    /// The pool had no connections at all: a construction defect, fatal.
    NoConnections,
    /// A membership refresh failed. Logged, never fatal for in-flight calls.
    SniffFailure,
    /// A bulk body with no documents: a caller error, not a silent no-op.
    EmptyBulkBody,
}

} // verus!
