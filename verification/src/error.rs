//! The error kinds the core emits, and the HTTP status each one maps to at
//! the service boundary.

use vstd::prelude::*;

verus! {

/// Errors surfaced by the engine and the controller.
///
/// - `DependencyNotMet`: the operation was queued in the buffer; it must not
///   be persisted or broadcast.
/// - `DocumentNotLoaded`: a request named a document that was never
///   activated.
/// - `InvalidRequest`: a malformed identifier, a missing value on insert or
///   update, or an unknown operation tag on a broadcast message.
/// - `DatabaseError`: a persistence fault; the transaction is rolled back.
/// - `BroadcastError`: a publish fault.
/// - `RateLimited`: the upstream limiter denied the request.
/// - `Unavailable`: the document is degraded after a broadcast give-up; all
///   writes are rejected until an operator clears it.
#[derive(Debug, Clone, PartialEq, Eq)]
pub enum ApiError {
    DependencyNotMet,
    DocumentNotLoaded,
    InvalidRequest(String),
    DatabaseError(String),
    BroadcastError(String),
    RateLimited,
    Unavailable,
}

impl ApiError {
    /// The HTTP status the controller maps this error to.
    pub open spec fn spec_status_code(&self) -> u16 {
        match self {
            ApiError::DependencyNotMet => 200u16,
            ApiError::DocumentNotLoaded => 404u16,
            ApiError::InvalidRequest(_) => 400u16,
            ApiError::DatabaseError(_) => 500u16,
            ApiError::BroadcastError(_) => 500u16,
            ApiError::RateLimited => 429u16,
            ApiError::Unavailable => 503u16,
        }
    }

    /// The HTTP status the controller maps this error to. An accepted-for-
    /// later dependency signal is not a failure; malformed requests are the
    /// client's fault; persistence and publish faults are the server's.
    pub fn status_code(&self) -> (r: u16)
        ensures
            r == self.spec_status_code(),
    {
        match self {
            ApiError::DependencyNotMet => 200,
            ApiError::DocumentNotLoaded => 404,
            ApiError::InvalidRequest(_) => 400,
            ApiError::DatabaseError(_) => 500,
            ApiError::BroadcastError(_) => 500,
            ApiError::RateLimited => 429,
            ApiError::Unavailable => 503,
        }
    }

    /// The text of the error, for logs and response bodies.
    pub open spec fn spec_message(&self) -> Seq<char> {
        match self {
            ApiError::DependencyNotMet => "Dependency missing for the operation"@,
            ApiError::DocumentNotLoaded => "Document not loaded"@,
            ApiError::InvalidRequest(m) => "Invalid request: "@ + m@,
            ApiError::DatabaseError(m) => "Database error: "@ + m@,
            ApiError::BroadcastError(m) => "Broadcast error: "@ + m@,
            ApiError::RateLimited => "Rate limited"@,
            ApiError::Unavailable => "Document unavailable"@,
        }
    }

    /// The text of the error, for logs and response bodies.
    pub fn message(&self) -> (r: String)
        ensures
            r@ == self.spec_message(),
    {
        match self {
            ApiError::DependencyNotMet => "Dependency missing for the operation".to_owned(),
            ApiError::DocumentNotLoaded => "Document not loaded".to_owned(),
            ApiError::InvalidRequest(m) => "Invalid request: ".to_owned().concat(m.as_str()),
            ApiError::DatabaseError(m) => "Database error: ".to_owned().concat(m.as_str()),
            ApiError::BroadcastError(m) => "Broadcast error: ".to_owned().concat(m.as_str()),
            ApiError::RateLimited => "Rate limited".to_owned(),
            ApiError::Unavailable => "Document unavailable".to_owned(),
        }
    }
}

} // verus!
