use nimble::controller::{create_document_title, initial_snapshot_row, publish_retry_decision, Replica};
use nimble::error::ApiError;
use nimble::messages::BroadcastOperation;
use nimble::rga::OperationType;

fn doc_id() -> u128 {
    uuid::Uuid::parse_str("67e55044-10b1-426f-9247-bb680e5fe0c8")
        .unwrap()
        .as_u128()
}

#[test]
fn operations_on_an_unloaded_document_are_rejected() {
    let mut replica = Replica::new(1, 1);
    let r = replica.local_insert(doc_id(), "A".to_string(), None, None);
    assert_eq!(r.unwrap_err(), ApiError::DocumentNotLoaded);
    let r = replica.read_document(doc_id());
    assert_eq!(r.unwrap_err(), ApiError::DocumentNotLoaded);
}

#[test]
fn activate_then_edit_and_read() {
    let mut replica = Replica::new(1, 1);
    replica.activate_document(doc_id(), Vec::new());
    assert!(replica.is_loaded(doc_id()));

    let commit = replica
        .local_insert(doc_id(), "A".to_string(), None, None)
        .unwrap();
    assert_eq!(commit.op.operation, OperationType::Insert);
    assert_eq!(commit.op.value, Some("A".to_string()));
    assert_eq!(commit.snapshot.value, "A".to_string());
    assert!(!commit.snapshot.tombstone);

    let id_a = commit.op.s4vector();
    let commit_b = replica
        .local_insert(doc_id(), "B".to_string(), Some(id_a), None)
        .unwrap();
    let id_b = commit_b.op.s4vector();

    let del = replica.local_delete(doc_id(), id_a).unwrap();
    assert_eq!(del.op.operation, OperationType::Delete);
    assert_eq!(del.op.value, None);
    assert!(del.snapshot.tombstone);
    assert_eq!(del.snapshot.value, "A".to_string());

    assert_eq!(replica.read_document(doc_id()).unwrap(), vec!["B".to_string()]);

    let upd = replica
        .local_update(doc_id(), id_b, "B2".to_string())
        .unwrap();
    assert_eq!(upd.op.value, Some("B2".to_string()));
    assert_eq!(upd.snapshot.value, "B2".to_string());
    assert!(!upd.snapshot.tombstone);
    assert_eq!(replica.read_document(doc_id()).unwrap(), vec!["B2".to_string()]);
}

#[test]
fn remote_apply_requires_a_value_for_inserts_and_updates() {
    let mut replica = Replica::new(1, 2);
    replica.activate_document(doc_id(), Vec::new());
    let op = BroadcastOperation {
        operation: OperationType::Insert,
        document_id: doc_id(),
        ssn: 1,
        sum: 1,
        sid: 1,
        seq: 0,
        value: None,
        left: None,
        right: None,
    };
    let r = replica.remote_apply(doc_id(), op);
    match r {
        Err(ApiError::InvalidRequest(m)) => assert_eq!(m, "value required".to_string()),
        other => panic!("expected an invalid-request error, got {:?}", other),
    }
}

#[test]
fn remote_apply_merges_and_reports_the_snapshot_row() {
    let mut replica = Replica::new(1, 2);
    replica.activate_document(doc_id(), Vec::new());
    let op = BroadcastOperation {
        operation: OperationType::Insert,
        document_id: doc_id(),
        ssn: 1,
        sum: 1,
        sid: 1,
        seq: 0,
        value: Some("A".to_string()),
        left: None,
        right: None,
    };
    let row = replica.remote_apply(doc_id(), op).unwrap().unwrap();
    assert_eq!(row.value, "A".to_string());
    assert!(!row.tombstone);
    assert_eq!((row.ssn, row.sum, row.sid, row.seq), (1, 1, 1, 0));
    assert_eq!(replica.read_document(doc_id()).unwrap(), vec!["A".to_string()]);

    // A deferred operation yields no row to upsert.
    let dangling = BroadcastOperation {
        operation: OperationType::Delete,
        document_id: doc_id(),
        ssn: 9,
        sum: 9,
        sid: 9,
        seq: 9,
        value: None,
        left: None,
        right: None,
    };
    let row = replica.remote_apply(doc_id(), dangling).unwrap();
    assert!(row.is_none());
}

#[test]
fn a_degraded_document_rejects_writes() {
    let mut replica = Replica::new(1, 1);
    replica.activate_document(doc_id(), Vec::new());
    replica.mark_degraded(doc_id());
    let r = replica.local_insert(doc_id(), "A".to_string(), None, None);
    assert_eq!(r.unwrap_err(), ApiError::Unavailable);
    let r = replica.local_delete(
        doc_id(),
        nimble::s4vector::S4Vector { ssn: 1, sum: 1, sid: 1, seq: 0 },
    );
    assert_eq!(r.unwrap_err(), ApiError::Unavailable);
}

#[test]
fn document_creation_defaults() {
    assert_eq!(
        create_document_title("".to_string()),
        "New document".to_string()
    );
    assert_eq!(
        create_document_title("Notes".to_string()),
        "Notes".to_string()
    );
    let row = initial_snapshot_row(doc_id(), 4);
    assert_eq!(row.document_id, doc_id());
    assert_eq!((row.ssn, row.sum, row.sid, row.seq), (0, 0, 4, 0));
    assert_eq!(row.value, "".to_string());
    assert!(!row.tombstone);
}

#[test]
fn error_kinds_map_to_their_statuses() {
    assert_eq!(ApiError::DependencyNotMet.status_code(), 200);
    assert_eq!(ApiError::DocumentNotLoaded.status_code(), 404);
    assert_eq!(ApiError::InvalidRequest("x".to_string()).status_code(), 400);
    assert_eq!(ApiError::DatabaseError("x".to_string()).status_code(), 500);
    assert_eq!(ApiError::BroadcastError("x".to_string()).status_code(), 500);
    assert_eq!(ApiError::RateLimited.status_code(), 429);
    assert_eq!(ApiError::Unavailable.status_code(), 503);
    assert_eq!(
        ApiError::InvalidRequest("bad id".to_string()).message(),
        "Invalid request: bad id".to_string()
    );
    assert_eq!(
        ApiError::DependencyNotMet.message(),
        "Dependency missing for the operation".to_string()
    );
}

#[test]
fn broadcast_operation_reassembles_its_identifier() {
    let op = BroadcastOperation {
        operation: OperationType::Update,
        document_id: doc_id(),
        ssn: 5,
        sum: 6,
        sid: 7,
        seq: 8,
        value: Some("v".to_string()),
        left: None,
        right: None,
    };
    let s4 = op.s4vector();
    assert_eq!((s4.ssn, s4.sum, s4.sid, s4.seq), (5, 6, 7, 8));
}

#[test]
fn publish_retries_back_off_exponentially_then_give_up() {
    assert_eq!(publish_retry_decision(0, 5, 50), Some(50));
    assert_eq!(publish_retry_decision(1, 5, 50), Some(100));
    assert_eq!(publish_retry_decision(2, 5, 50), Some(200));
    assert_eq!(publish_retry_decision(4, 5, 50), Some(800));
    assert_eq!(publish_retry_decision(5, 5, 50), None);
    assert_eq!(publish_retry_decision(9, 5, 50), None);
    assert_eq!(publish_retry_decision(2, 3, u64::MAX), Some(u64::MAX));
}
