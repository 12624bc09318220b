//! Plain data carried between the engine, the controller and the outside
//! world: broadcast descriptors, request and response bodies, and snapshot
//! rows. Document and owner identifiers are held as 128-bit integers; the
//! boundary that speaks to clients converts them to and from their textual
//! form.

use vstd::prelude::*;

use crate::rga::OperationType;
use crate::s4vector::S4Vector;

verus! {

/// The canonical operation record that is logged, published to peers, and
/// later merged at remote replicas.
///
/// `value` is `None` for a delete, present for an insert, and required for
/// an update. `left` and `right` are the birth anchors of the operation.
#[derive(Debug, Clone)]
pub struct BroadcastOperation {
    pub operation: OperationType,
    pub document_id: u128,
    pub ssn: u64,
    pub sum: u64,
    pub sid: u64,
    pub seq: u64,
    pub value: Option<String>,
    pub left: Option<S4Vector>,
    pub right: Option<S4Vector>,
}

impl BroadcastOperation {
    /// The S4Vector identifying the operation, reassembled from the four
    /// components of the record.
    pub fn s4vector(&self) -> (r: S4Vector)
        ensures
            r == (S4Vector { ssn: self.ssn, sum: self.sum, sid: self.sid, seq: self.seq }),
    {
        S4Vector { ssn: self.ssn, sum: self.sum, sid: self.sid, seq: self.seq }
    }
}

/// Request body for creating a new document.
#[derive(Debug, Clone)]
pub struct CreateDocumentRequest {
    pub owner_id: u128,
    pub title: String,
}

/// Response body for the result of creating a new document.
#[derive(Debug, Clone)]
pub struct CreateDocumentResponse {
    pub document_id: u128,
    pub message: String,
}

/// One row of a fetched document: an operation as persisted in the log.
#[derive(Debug, Clone)]
pub struct Operation {
    pub document_id: u64,
    pub s4vector: S4Vector,
    pub value: String,
    pub tombstone: bool,
    pub left: S4Vector,
    pub right: S4Vector,
}

/// Response structure for a fetched document.
#[derive(Debug, Clone)]
pub struct FetchDocumentResponse {
    pub document_id: u128,
    pub title: String,
    pub owner_id: u128,
    pub creation_date: String,
    pub operations: Vec<Operation>,
}

/// One row of the latest-value projection: the current `value` and
/// `tombstone` of the node keyed by the S4Vector quadruple.
#[derive(Debug, Clone)]
pub struct DocumentSnapshot {
    pub document_id: u128,
    pub ssn: u64,
    pub sum: u64,
    pub sid: u64,
    pub seq: u64,
    pub value: String,
    pub tombstone: bool,
}

impl DocumentSnapshot {
    /// The S4Vector identifying the row.
    pub fn s4vector(&self) -> (r: S4Vector)
        ensures
            r == (S4Vector { ssn: self.ssn, sum: self.sum, sid: self.sid, seq: self.seq }),
    {
        S4Vector { ssn: self.ssn, sum: self.sum, sid: self.sid, seq: self.seq }
    }
}

/// Request body for the insert, update and delete operations.
#[derive(Debug, Clone)]
pub struct OperationRequest {
    pub value: Option<String>,
    pub s4vector: Option<S4Vector>,
    pub tombstone: bool,
    pub left: Option<S4Vector>,
    pub right: Option<S4Vector>,
}

/// An inbound pub/sub notification: the operation payload is carried as a
/// serialized message together with its topic and timing metadata.
#[derive(Debug, Clone)]
pub struct SnsNotification {
    pub operation: String,
    pub message_id: String,
    pub topic_arn: String,
    pub message: String,
    pub timestamp: String,
}

} // verus!
