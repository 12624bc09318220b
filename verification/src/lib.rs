//! A replicated collaborative-document engine. Each replica holds shared
//! text as a Replicated Growable Array — a list CRDT over totally ordered
//! S4Vector identifiers — and merges local and remote edits without
//! coordination, converging to the same visible document on every replica
//! regardless of delivery order.
//!
//! - [`s4vector`]: the four-component version identifier and its total order.
//! - [`rga`]: the engine — nodes, tombstones, the dependency buffer, the
//!   local and remote operations, and the convergence, idempotence and
//!   round-trip laws.
//! - [`controller`]: the per-document coordinator that hands the I/O shell
//!   the exact rows to persist and the descriptor to publish.
//! - [`messages`]: the plain records crossing the service boundary.
//! - [`error`]: the error kinds the core emits and their HTTP statuses.
//! - [`request`]: byte-exact parsing of raw HTTP requests at the proxy edge.
//! - [`proxy`]: the consistent-hashing ring and the rate-limit decisions of
//!   the reverse proxy.

pub mod controller;
pub mod error;
pub mod messages;
pub mod proxy;
pub mod request;
pub mod rga;
pub mod s4vector;
