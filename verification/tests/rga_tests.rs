use nimble::rga::{Operation, OperationError, OperationType, RGA};
use nimble::s4vector::S4Vector;

fn doc_id() -> u128 {
    uuid::Uuid::parse_str("67e55044-10b1-426f-9247-bb680e5fe0c8")
        .unwrap()
        .as_u128()
}

#[test]
fn test_insert() {
    let mut rga = RGA::new(1, 1);
    let result = rga.local_insert("A".to_string(), None, None, doc_id());
    assert!(result.is_ok());
    assert_eq!(rga.nodes.len(), 1);
}

#[test]
fn test_delete() {
    let mut rga = RGA::new(1, 1);
    let s4 = rga
        .local_insert("A".to_string(), None, None, doc_id())
        .unwrap()
        .s4vector();
    let result = rga.local_delete(s4.clone(), doc_id());
    assert!(result.is_ok());
    assert!(rga.get_node(&s4).unwrap().tombstone);
}

#[test]
fn test_update() {
    let mut rga = RGA::new(1, 1);
    let s4 = rga
        .local_insert("A".to_string(), None, None, doc_id())
        .unwrap()
        .s4vector();
    let result = rga.local_update(s4.clone(), "B".to_string(), doc_id());
    assert!(result.is_ok());
    assert_eq!(rga.get_node(&s4).unwrap().value, "B".to_string());
}

#[test]
fn test_read() {
    let mut rga = RGA::new(1, 1);
    rga.local_insert("A".to_string(), None, None, doc_id()).unwrap();
    let s4 = rga.head().unwrap();
    rga.local_insert("B".to_string(), Some(s4), None, doc_id()).unwrap();
    rga.local_delete(s4, doc_id()).unwrap();

    let result = rga.read();
    assert_eq!(result, vec!["B".to_string()]);
}

#[test]
fn sequential_insert_converges() {
    let mut r1 = RGA::new(1, 1);
    let mut r2 = RGA::new(1, 2);

    let a = r1.local_insert("A".to_string(), None, None, doc_id()).unwrap();
    let id_a = a.s4vector();
    let b = r1
        .local_insert("B".to_string(), Some(id_a), None, doc_id())
        .unwrap();
    let id_b = b.s4vector();

    r2.remote_insert("A".to_string(), id_a, None, None);
    r2.remote_insert("B".to_string(), id_b, Some(id_a), None);

    assert_eq!(r1.read(), vec!["A".to_string(), "B".to_string()]);
    assert_eq!(r2.read(), vec!["A".to_string(), "B".to_string()]);
}

#[test]
fn concurrent_head_insert_converges() {
    let mut r1 = RGA::new(1, 1);
    let mut r2 = RGA::new(1, 2);

    let x = r1.local_insert("X".to_string(), None, None, doc_id()).unwrap();
    let id_x = x.s4vector();
    let y = r2.local_insert("Y".to_string(), None, None, doc_id()).unwrap();
    let id_y = y.s4vector();
    assert_eq!(id_x.sum, 1);
    assert_eq!(id_y.sum, 1);

    r1.remote_insert("Y".to_string(), id_y, None, None);
    r2.remote_insert("X".to_string(), id_x, None, None);

    // The greater site id wins the tie at the same anchor.
    assert_eq!(r1.read(), vec!["Y".to_string(), "X".to_string()]);
    assert_eq!(r2.read(), vec!["Y".to_string(), "X".to_string()]);
}

#[test]
fn insert_then_delete_converges() {
    let mut r1 = RGA::new(1, 1);
    let mut r2 = RGA::new(1, 2);

    let a = r1.local_insert("A".to_string(), None, None, doc_id()).unwrap();
    let id_a = a.s4vector();
    let b = r1
        .local_insert("B".to_string(), Some(id_a), None, doc_id())
        .unwrap();
    let id_b = b.s4vector();
    r1.local_delete(id_a, doc_id()).unwrap();

    r2.remote_insert("A".to_string(), id_a, None, None);
    r2.remote_insert("B".to_string(), id_b, Some(id_a), None);
    r2.remote_delete(id_a);

    assert_eq!(r1.read(), vec!["B".to_string()]);
    assert_eq!(r2.read(), vec!["B".to_string()]);

    // The snapshot of the second replica holds a tombstoned row for the
    // deleted node and a live row for the other.
    let rows = r2.snapshot();
    let row_a = rows.iter().find(|r| r.s4vector == id_a).unwrap();
    let row_b = rows.iter().find(|r| r.s4vector == id_b).unwrap();
    assert!(row_a.tombstone);
    assert!(!row_b.tombstone);
}

#[test]
fn out_of_order_remote_is_buffered_then_promoted() {
    let mut r1 = RGA::new(1, 1);
    let mut r2 = RGA::new(1, 2);

    let a = r1.local_insert("A".to_string(), None, None, doc_id()).unwrap();
    let id_a = a.s4vector();
    r1.local_delete(id_a, doc_id()).unwrap();

    // The delete arrives before the insert it targets: it waits in the
    // buffer, and the insert's sweep promotes it.
    r2.remote_delete(id_a);
    assert_eq!(r2.buffer.len(), 1);
    r2.remote_insert("A".to_string(), id_a, None, None);

    assert_eq!(r2.read(), Vec::<String>::new());
    assert_eq!(r2.buffer.len(), 0);
}

#[test]
fn duplicate_remote_insert_is_a_no_op() {
    let mut r1 = RGA::new(1, 1);
    let mut r2 = RGA::new(1, 2);

    let a = r1.local_insert("A".to_string(), None, None, doc_id()).unwrap();
    let id_a = a.s4vector();

    r2.remote_insert("A".to_string(), id_a, None, None);
    r2.remote_insert("A".to_string(), id_a, None, None);

    assert_eq!(r2.read(), vec!["A".to_string()]);
    assert_eq!(r2.nodes.len(), 1);
}

#[test]
fn duplicate_buffered_remote_is_suppressed() {
    let mut r2 = RGA::new(1, 2);
    let ghost_target = S4Vector { ssn: 1, sum: 1, sid: 1, seq: 0 };

    r2.remote_delete(ghost_target);
    r2.remote_delete(ghost_target);
    assert_eq!(r2.buffer.len(), 1);
}

#[test]
fn restart_recovery_from_snapshot() {
    let mut r1 = RGA::new(1, 1);
    let mut r2 = RGA::new(1, 2);

    let a = r1.local_insert("A".to_string(), None, None, doc_id()).unwrap();
    let id_a = a.s4vector();
    let b = r1
        .local_insert("B".to_string(), Some(id_a), None, doc_id())
        .unwrap();
    let id_b = b.s4vector();
    r1.local_delete(id_a, doc_id()).unwrap();

    r2.remote_insert("A".to_string(), id_a, None, None);
    r2.remote_insert("B".to_string(), id_b, Some(id_a), None);
    r2.remote_delete(id_a);

    // Restart the second replica with fresh memory and load the snapshot.
    let rows = r2.snapshot();
    let fresh = RGA::create_from(rows, 1, 2);
    assert_eq!(fresh.read(), vec!["B".to_string()]);
    assert_eq!(fresh.nodes.len(), 2);
    assert!(fresh.get_node(&id_a).is_some());
    assert!(fresh.get_node(&id_b).is_some());
}

#[test]
fn local_insert_with_missing_anchor_is_deferred() {
    let mut rga = RGA::new(1, 1);
    let missing = S4Vector { ssn: 9, sum: 9, sid: 9, seq: 9 };
    let result = rga.local_insert("B".to_string(), Some(missing), None, doc_id());
    assert!(matches!(result, Err(OperationError::DependencyNotMet)));
    assert_eq!(rga.buffer.len(), 1);
    assert_eq!(rga.nodes.len(), 0);

    // Once the anchor arrives, a sweep promotes the deferred insert.
    rga.remote_insert("A".to_string(), missing, None, None);
    assert_eq!(rga.read(), vec!["A".to_string(), "B".to_string()]);
    assert_eq!(rga.buffer.len(), 0);
}

#[test]
fn local_update_and_delete_of_missing_target_are_deferred() {
    let mut rga = RGA::new(1, 1);
    let missing = S4Vector { ssn: 9, sum: 9, sid: 9, seq: 9 };

    let upd = rga.local_update(missing, "V".to_string(), doc_id());
    assert!(matches!(upd, Err(OperationError::DependencyNotMet)));
    let del = rga.local_delete(missing, doc_id());
    assert!(matches!(del, Err(OperationError::DependencyNotMet)));
    assert_eq!(rga.buffer.len(), 2);
}

#[test]
fn update_of_tombstoned_node_changes_nothing() {
    let mut rga = RGA::new(1, 1);
    let id = rga
        .local_insert("A".to_string(), None, None, doc_id())
        .unwrap()
        .s4vector();
    rga.local_delete(id, doc_id()).unwrap();
    rga.remote_update(id, "Z".to_string());
    assert_eq!(rga.get_node(&id).unwrap().value, "A".to_string());
    assert!(rga.get_node(&id).unwrap().tombstone);
}

#[test]
fn remote_apply_dispatches_by_kind() {
    let mut r1 = RGA::new(1, 1);
    let mut r2 = RGA::new(1, 2);

    let a = r1.local_insert("A".to_string(), None, None, doc_id()).unwrap();
    let id_a = a.s4vector();

    r2.remote_apply(Operation {
        operation: OperationType::Insert,
        s4vector: id_a,
        value: Some("A".to_string()),
        tombstone: false,
        left: None,
        right: None,
    });
    assert_eq!(r2.read(), vec!["A".to_string()]);

    r2.remote_apply(Operation {
        operation: OperationType::Update,
        s4vector: id_a,
        value: Some("A2".to_string()),
        tombstone: false,
        left: None,
        right: None,
    });
    assert_eq!(r2.read(), vec!["A2".to_string()]);

    r2.remote_apply(Operation {
        operation: OperationType::Delete,
        s4vector: id_a,
        value: None,
        tombstone: false,
        left: None,
        right: None,
    });
    assert_eq!(r2.read(), Vec::<String>::new());
}

#[test]
fn concurrent_insert_and_delete_commute() {
    let mut r1 = RGA::new(1, 1);
    let a = r1.local_insert("A".to_string(), None, None, doc_id()).unwrap();
    let id_a = a.s4vector();
    let b = r1
        .local_insert("B".to_string(), Some(id_a), None, doc_id())
        .unwrap();
    let id_b = b.s4vector();

    // One replica sees the delete of A before the insert of C, the other
    // after; both end on the same document.
    let mut r2 = RGA::new(1, 2);
    r2.remote_insert("A".to_string(), id_a, None, None);
    r2.remote_insert("B".to_string(), id_b, Some(id_a), None);
    let mut r3 = RGA::new(1, 3);
    r3.remote_insert("A".to_string(), id_a, None, None);
    r3.remote_insert("B".to_string(), id_b, Some(id_a), None);

    let c = S4Vector { ssn: 1, sum: 3, sid: 4, seq: 0 };
    r2.remote_insert("C".to_string(), c, Some(id_a), None);
    r2.remote_delete(id_b);
    r3.remote_delete(id_b);
    r3.remote_insert("C".to_string(), c, Some(id_a), None);

    assert_eq!(r2.read(), r3.read());
    assert_eq!(r2.read(), vec!["A".to_string(), "C".to_string()]);
}

#[test]
fn concurrent_update_and_delete_of_one_node_read_alike() {
    let mut r1 = RGA::new(1, 1);
    let a = r1.local_insert("A".to_string(), None, None, doc_id()).unwrap();
    let id_a = a.s4vector();

    let mut r2 = RGA::new(1, 2);
    r2.remote_insert("A".to_string(), id_a, None, None);
    let mut r3 = RGA::new(1, 3);
    r3.remote_insert("A".to_string(), id_a, None, None);

    r2.remote_update(id_a, "A2".to_string());
    r2.remote_delete(id_a);
    r3.remote_delete(id_a);
    r3.remote_update(id_a, "A2".to_string());

    assert_eq!(r2.read(), r3.read());
    assert_eq!(r2.read(), Vec::<String>::new());
}

#[test]
fn broadcast_descriptor_carries_the_minted_identifier() {
    let mut rga = RGA::new(7, 3);
    let op = rga.local_insert("A".to_string(), None, None, doc_id()).unwrap();
    assert_eq!(op.ssn, 7);
    assert_eq!(op.sum, 1);
    assert_eq!(op.sid, 3);
    assert_eq!(op.seq, 0);
    assert_eq!(op.value, Some("A".to_string()));
    assert_eq!(op.document_id, doc_id());
}
