//! The replica controller: the per-document coordinator that serializes
//! local and remote operations against the engine and hands the surrounding
//! shell the exact rows to persist and the exact descriptor to publish.
//!
//! The controller itself performs no I/O. For a local operation the shell is
//! expected to follow the ordered protocol: invoke the engine through the
//! controller; on `DependencyNotMet` stop (nothing is persisted or
//! published); on success append the log row and upsert the snapshot row in
//! one transaction, publish the descriptor, and commit. Where publishing
//! gives up after retries, the shell calls `mark_degraded`, and the
//! controller rejects all further writes for that document with
//! `Unavailable` until an operator clears it.

use vstd::prelude::*;

use crate::error::ApiError;
use crate::messages::{BroadcastOperation, DocumentSnapshot};
use crate::rga::{
    anchors_present, delete_op_record, find_id, has_id, insert_op_record, node_matches_row,
    rows_distinct, spec_insert_node, spec_remote_step, spec_set_tombstone, spec_set_value,
    spec_sweep, update_op_record, Node, Operation, OperationType, RGA,
};
use crate::s4vector::{spec_generate, S4Vector};

verus! {

/// One loaded document: its identifier, its engine state, and whether the
/// document is degraded (a broadcast gave up and writes are rejected).
#[derive(Debug)]
pub struct DocumentEntry {
    pub document_id: u128,
    pub rga: RGA,
    pub degraded: bool,
}

/// What a successful local operation hands the shell: the descriptor to
/// publish (which, with a timestamp, is also the log row to append) and the
/// snapshot row to upsert.
#[derive(Debug)]
pub struct LocalCommit {
    pub op: BroadcastOperation,
    pub snapshot: DocumentSnapshot,
}

/// Index of the first entry for `id`, or `s.len()` where none exists.
pub open spec fn doc_index(s: Seq<DocumentEntry>, id: u128) -> int
    decreases s.len(),
{
    if s.len() == 0 {
        0
    } else if s[0].document_id == id {
        0
    } else {
        1 + doc_index(s.drop_first(), id)
    }
}

/// Whether a document with `id` is loaded.
pub open spec fn has_doc(s: Seq<DocumentEntry>, id: u128) -> bool {
    doc_index(s, id) < s.len()
}

pub proof fn lemma_doc_index_props(s: Seq<DocumentEntry>, id: u128)
    ensures
        0 <= doc_index(s, id) <= s.len(),
        doc_index(s, id) < s.len() ==> s[doc_index(s, id)].document_id == id,
        forall|j: int| 0 <= j < doc_index(s, id) ==> s[j].document_id != id,
        doc_index(s, id) == s.len() ==> forall|j: int|
            0 <= j < s.len() ==> s[j].document_id != id,
    decreases s.len(),
{
    if s.len() > 0 && s[0].document_id != id {
        let t = s.drop_first();
        lemma_doc_index_props(t, id);
        assert forall|j: int| 0 <= j < doc_index(s, id) implies s[j].document_id != id by {
            if j >= 1 {
                assert(s[j] == t[j - 1]);
            }
        }
        if doc_index(s, id) == s.len() {
            assert forall|j: int| 0 <= j < s.len() implies s[j].document_id != id by {
                if j >= 1 {
                    assert(s[j] == t[j - 1]);
                }
            }
        }
    }
}

proof fn lemma_doc_index_is(s: Seq<DocumentEntry>, id: u128, k: int)
    requires
        0 <= k <= s.len(),
        forall|j: int| 0 <= j < k ==> s[j].document_id != id,
        k < s.len() ==> s[k].document_id == id,
        k == s.len() ==> forall|j: int| 0 <= j < s.len() ==> s[j].document_id != id,
    ensures
        doc_index(s, id) == k,
    decreases s.len(),
{
    if s.len() == 0 {
    } else if s[0].document_id == id {
        assert(k == 0);
    } else {
        let t = s.drop_first();
        assert(forall|j: int| 0 <= j < t.len() ==> t[j] == s[j + 1]);
        lemma_doc_index_is(t, id, k - 1);
    }
}

/// No two entries serve the same document.
pub open spec fn docs_distinct(s: Seq<DocumentEntry>) -> bool {
    forall|i: int, j: int| 0 <= i < j < s.len() ==> s[i].document_id != s[j].document_id
}

/// The snapshot row for a node of a document: the latest-value projection
/// under the S4Vector quadruple.
pub open spec fn snapshot_row_of(document_id: u128, n: Node) -> DocumentSnapshot {
    DocumentSnapshot {
        document_id,
        ssn: n.s4vector.ssn,
        sum: n.s4vector.sum,
        sid: n.s4vector.sid,
        seq: n.s4vector.seq,
        value: n.value,
        tombstone: n.tombstone,
    }
}

/// The per-document coordinator of one replica: the loaded documents, and
/// the replica's immutable site and session identifiers.
#[derive(Debug)]
pub struct Replica {
    pub documents: Vec<DocumentEntry>,
    pub replica_id: u64,
    pub session_id: u64,
}

impl Replica {
    /// Well-formedness: one entry per document, every engine well-formed.
    pub open spec fn wf(&self) -> bool {
        docs_distinct(self.documents@) && forall|i: int|
            0 <= i < self.documents@.len() ==> (#[trigger] self.documents@[i]).rga.wf()
    }

    /// A fresh controller with no documents loaded.
    pub fn new(replica_id: u64, session_id: u64) -> (r: Replica)
        ensures
            r.wf(),
            r.documents@ == Seq::<DocumentEntry>::empty(),
            r.replica_id == replica_id,
            r.session_id == session_id,
    {
        Replica { documents: Vec::new(), replica_id, session_id }
    }

    /// Index of the entry for `document_id`, or the number of entries.
    fn find_doc(&self, document_id: u128) -> (r: usize)
        ensures
            r as int == doc_index(self.documents@, document_id),
    {
        let n = self.documents.len();
        let mut i: usize = 0;
        while i < n
            invariant
                i <= n,
                n == self.documents@.len(),
                forall|j: int| 0 <= j < i ==> (#[trigger] self.documents@[j]).document_id
                    != document_id,
            decreases n - i,
        {
            if self.documents[i].document_id == document_id {
                proof {
                    lemma_doc_index_is(self.documents@, document_id, i as int);
                }
                return i;
            }
            i = i + 1;
        }
        proof {
            lemma_doc_index_is(self.documents@, document_id, n as int);
        }
        n
    }

    /// Whether a document has been activated.
    pub fn is_loaded(&self, document_id: u128) -> (r: bool)
        ensures
            r == has_doc(self.documents@, document_id),
    {
        let i = self.find_doc(document_id);
        proof {
            lemma_doc_index_props(self.documents@, document_id);
        }
        i < self.documents.len()
    }

    /// First touch of a document: rebuilds its engine from the persisted
    /// snapshot rows, given in traversal order with pairwise-distinct
    /// identifiers (the store's primary key). A document already loaded is
    /// left untouched.
    pub fn activate_document(&mut self, document_id: u128, rows: Vec<Operation>)
        requires
            old(self).wf(),
            rows_distinct(rows@),
            rows@.len() <= u64::MAX,
        ensures
            final(self).wf(),
            final(self).replica_id == old(self).replica_id,
            final(self).session_id == old(self).session_id,
            has_doc(final(self).documents@, document_id),
            (has_doc(old(self).documents@, document_id) ==> final(self).documents@ == old(
                self,
            ).documents@),
            (!has_doc(old(self).documents@, document_id) ==> {
                let e = final(self).documents@.last();
                final(self).documents@ == old(self).documents@.push(e) && e.document_id
                    == document_id && e.degraded == false && e.rga.session_id == old(
                    self,
                ).session_id && e.rga.site_id == old(self).replica_id && e.rga.buffer@ == Seq::<
                    Operation,
                >::empty() && e.rga.nodes@.len() == rows@.len() && e.rga.local_sequence
                    == rows@.len() && forall|i: int|
                    0 <= i < rows@.len() ==> node_matches_row(#[trigger] e.rga.nodes@[i], rows@[i])
            }),
    {
        proof {
            lemma_doc_index_props(self.documents@, document_id);
        }
        let i = self.find_doc(document_id);
        if i < self.documents.len() {
            return ;
        }
        let rga = RGA::create_from(rows, self.session_id, self.replica_id);
        let entry = DocumentEntry { document_id, rga, degraded: false };
        let ghost docs0 = self.documents@;
        self.documents.push(entry);
        proof {
            let docs1 = self.documents@;
            assert(docs1.last().document_id == document_id);
            assert forall|a: int, b: int|
                0 <= a < b < docs1.len() implies docs1[a].document_id != docs1[b].document_id by {
                if b < docs0.len() {
                    assert(docs1[a] == docs0[a] && docs1[b] == docs0[b]);
                } else {
                    assert(docs1[a] == docs0[a]);
                    assert(docs1[b].document_id == document_id);
                }
            }
            assert forall|k: int| 0 <= k < docs1.len() implies (#[trigger] docs1[k]).rga.wf() by {
                if k < docs0.len() {
                    assert(docs1[k] == docs0[k]);
                }
            }
            lemma_doc_index_props(docs1, document_id);
        }
    }

    /// Whether a local insert for this document can be accepted: the
    /// sequence counter and precedence sums have room and the identifier it
    /// would mint is fresh. The shell tests this before calling
    /// `local_insert`.
    pub open spec fn can_insert(
        &self,
        document_id: u128,
        left: Option<S4Vector>,
        right: Option<S4Vector>,
    ) -> bool {
        has_doc(self.documents@, document_id) ==> {
            let rga = self.documents@[doc_index(self.documents@, document_id)].rga;
            rga.local_sequence < u64::MAX && (left matches Some(l) ==> l.sum < u64::MAX) && (
            right matches Some(rr) ==> rr.sum < u64::MAX) && !has_id(
                rga.nodes@,
                spec_generate(rga.session_id, rga.site_id, rga.local_sequence, left, right),
            )
        }
    }

    /// Executable test of `can_insert`.
    pub fn accepts_insert(
        &self,
        document_id: u128,
        left: &Option<S4Vector>,
        right: &Option<S4Vector>,
    ) -> (r: bool)
        ensures
            r == self.can_insert(document_id, *left, *right),
    {
        proof {
            lemma_doc_index_props(self.documents@, document_id);
        }
        let i = self.find_doc(document_id);
        if i >= self.documents.len() {
            return true;
        }
        self.documents[i].rga.can_local_insert(left, right)
    }

    /// A local insert against a loaded document. On success the returned
    /// commit carries the broadcast descriptor and the snapshot row of the
    /// freshly inserted node; on `DependencyNotMet` the operation waits in
    /// the engine's buffer and nothing may be persisted or published.
    pub fn local_insert(
        &mut self,
        document_id: u128,
        value: String,
        left: Option<S4Vector>,
        right: Option<S4Vector>,
    ) -> (r: Result<LocalCommit, ApiError>)
        requires
            old(self).wf(),
            old(self).can_insert(document_id, left, right),
        ensures
            final(self).wf(),
            final(self).replica_id == old(self).replica_id,
            final(self).session_id == old(self).session_id,
            ({
                let docs = old(self).documents@;
                let di = doc_index(docs, document_id);
                if !has_doc(docs, document_id) {
                    final(self).documents@ == docs && r == Err::<LocalCommit, ApiError>(
                        ApiError::DocumentNotLoaded,
                    )
                } else if docs[di].degraded {
                    final(self).documents@ == docs && r == Err::<LocalCommit, ApiError>(
                        ApiError::Unavailable,
                    )
                } else {
                    let rga0 = docs[di].rga;
                    let s4 = spec_generate(
                        rga0.session_id,
                        rga0.site_id,
                        rga0.local_sequence,
                        left,
                        right,
                    );
                    let e = final(self).documents@[di];
                    final(self).documents@ == docs.update(di, e) && e.document_id == document_id
                        && e.degraded == docs[di].degraded && e.rga.session_id == rga0.session_id
                        && e.rga.site_id == rga0.site_id && e.rga.local_sequence
                        == rga0.local_sequence + 1 && if anchors_present(
                        rga0.nodes@,
                        left,
                        right,
                    ) {
                        let sw = spec_sweep(
                            spec_insert_node(
                                rga0.nodes@,
                                (Node { value, s4vector: s4, tombstone: false, left, right }),
                            ),
                            rga0.buffer@,
                        );
                        e.rga.nodes@ == sw.0 && e.rga.buffer@ == sw.1 && r == Ok::<
                            LocalCommit,
                            ApiError,
                        >(
                            LocalCommit {
                                op: BroadcastOperation {
                                    operation: OperationType::Insert,
                                    document_id,
                                    ssn: s4.ssn,
                                    sum: s4.sum,
                                    sid: s4.sid,
                                    seq: s4.seq,
                                    value: Some(value),
                                    left,
                                    right,
                                },
                                snapshot: DocumentSnapshot {
                                    document_id,
                                    ssn: s4.ssn,
                                    sum: s4.sum,
                                    sid: s4.sid,
                                    seq: s4.seq,
                                    value,
                                    tombstone: false,
                                },
                            },
                        )
                    } else {
                        e.rga.nodes@ == rga0.nodes@ && e.rga.buffer@ == rga0.buffer@.push(
                            insert_op_record(s4, value, left, right),
                        ) && r == Err::<LocalCommit, ApiError>(ApiError::DependencyNotMet)
                    }
                }
            }),
    {
        proof {
            lemma_doc_index_props(self.documents@, document_id);
        }
        let di = self.find_doc(document_id);
        if di >= self.documents.len() {
            return Err(ApiError::DocumentNotLoaded);
        }
        if self.documents[di].degraded {
            return Err(ApiError::Unavailable);
        }
        let ghost docs0 = self.documents@;
        let mut entry = self.documents.remove(di);
        let desc_value = value.clone();
        let res = entry.rga.local_insert(value, left, right, document_id);
        let ghost entry1 = entry;
        self.documents.insert(di, entry);
        proof {
            vstd::seq_lib::lemma_update_is_remove_insert(docs0, di as int, entry1);
            assert(self.documents@ =~= docs0.update(di as int, entry1));
            lemma_docs_update_keeps_wf(docs0, di as int, entry1);
        }
        match res {
            Ok(op) => {
                let snapshot = DocumentSnapshot {
                    document_id,
                    ssn: op.ssn,
                    sum: op.sum,
                    sid: op.sid,
                    seq: op.seq,
                    value: desc_value,
                    tombstone: false,
                };
                Ok(LocalCommit { op, snapshot })
            },
            Err(_) => Err(ApiError::DependencyNotMet),
        }
    }

    /// A local update against a loaded document. The snapshot row carries
    /// the target's current value and tombstone after the operation.
    pub fn local_update(&mut self, document_id: u128, s4vector: S4Vector, value: String) -> (r:
        Result<LocalCommit, ApiError>)
        requires
            old(self).wf(),
        ensures
            final(self).wf(),
            final(self).replica_id == old(self).replica_id,
            final(self).session_id == old(self).session_id,
            ({
                let docs = old(self).documents@;
                let di = doc_index(docs, document_id);
                if !has_doc(docs, document_id) {
                    final(self).documents@ == docs && r == Err::<LocalCommit, ApiError>(
                        ApiError::DocumentNotLoaded,
                    )
                } else if docs[di].degraded {
                    final(self).documents@ == docs && r == Err::<LocalCommit, ApiError>(
                        ApiError::Unavailable,
                    )
                } else {
                    let rga0 = docs[di].rga;
                    let e = final(self).documents@[di];
                    final(self).documents@ == docs.update(di, e) && e.document_id == document_id
                        && e.degraded == docs[di].degraded && e.rga.session_id == rga0.session_id
                        && e.rga.site_id == rga0.site_id && e.rga.local_sequence
                        == rga0.local_sequence && if has_id(rga0.nodes@, s4vector) {
                        let target = rga0.nodes@[find_id(rga0.nodes@, s4vector)];
                        let sw = spec_sweep(
                            spec_set_value(rga0.nodes@, s4vector, value),
                            rga0.buffer@,
                        );
                        e.rga.nodes@ == sw.0 && e.rga.buffer@ == sw.1 && r == Ok::<
                            LocalCommit,
                            ApiError,
                        >(
                            LocalCommit {
                                op: BroadcastOperation {
                                    operation: OperationType::Update,
                                    document_id,
                                    ssn: s4vector.ssn,
                                    sum: s4vector.sum,
                                    sid: s4vector.sid,
                                    seq: s4vector.seq,
                                    value: Some(
                                        if target.tombstone {
                                            target.value
                                        } else {
                                            value
                                        },
                                    ),
                                    left: target.left,
                                    right: target.right,
                                },
                                snapshot: DocumentSnapshot {
                                    document_id,
                                    ssn: s4vector.ssn,
                                    sum: s4vector.sum,
                                    sid: s4vector.sid,
                                    seq: s4vector.seq,
                                    value: if target.tombstone {
                                        target.value
                                    } else {
                                        value
                                    },
                                    tombstone: target.tombstone,
                                },
                            },
                        )
                    } else {
                        e.rga.nodes@ == rga0.nodes@ && e.rga.buffer@ == rga0.buffer@.push(
                            update_op_record(s4vector, value),
                        ) && r == Err::<LocalCommit, ApiError>(ApiError::DependencyNotMet)
                    }
                }
            }),
    {
        proof {
            lemma_doc_index_props(self.documents@, document_id);
        }
        let di = self.find_doc(document_id);
        if di >= self.documents.len() {
            return Err(ApiError::DocumentNotLoaded);
        }
        if self.documents[di].degraded {
            return Err(ApiError::Unavailable);
        }
        let ghost docs0 = self.documents@;
        let mut entry = self.documents.remove(di);
        let target_tomb: bool = match entry.rga.get_node(&s4vector) {
            Some(n) => n.tombstone,
            None => false,
        };
        let res = entry.rga.local_update(s4vector, value, document_id);
        let ghost entry1 = entry;
        self.documents.insert(di, entry);
        proof {
            vstd::seq_lib::lemma_update_is_remove_insert(docs0, di as int, entry1);
            assert(self.documents@ =~= docs0.update(di as int, entry1));
            lemma_docs_update_keeps_wf(docs0, di as int, entry1);
        }
        match res {
            Ok(op) => {
                let row_value = match &op.value {
                    Some(v) => v.clone(),
                    None => String::new(),
                };
                let snapshot = DocumentSnapshot {
                    document_id,
                    ssn: op.ssn,
                    sum: op.sum,
                    sid: op.sid,
                    seq: op.seq,
                    value: row_value,
                    tombstone: target_tomb,
                };
                Ok(LocalCommit { op, snapshot })
            },
            Err(_) => Err(ApiError::DependencyNotMet),
        }
    }

    /// A local delete against a loaded document. The snapshot row carries
    /// the target's value with its tombstone set.
    pub fn local_delete(&mut self, document_id: u128, s4vector: S4Vector) -> (r: Result<
        LocalCommit,
        ApiError,
    >)
        requires
            old(self).wf(),
        ensures
            final(self).wf(),
            final(self).replica_id == old(self).replica_id,
            final(self).session_id == old(self).session_id,
            ({
                let docs = old(self).documents@;
                let di = doc_index(docs, document_id);
                if !has_doc(docs, document_id) {
                    final(self).documents@ == docs && r == Err::<LocalCommit, ApiError>(
                        ApiError::DocumentNotLoaded,
                    )
                } else if docs[di].degraded {
                    final(self).documents@ == docs && r == Err::<LocalCommit, ApiError>(
                        ApiError::Unavailable,
                    )
                } else {
                    let rga0 = docs[di].rga;
                    let e = final(self).documents@[di];
                    final(self).documents@ == docs.update(di, e) && e.document_id == document_id
                        && e.degraded == docs[di].degraded && e.rga.session_id == rga0.session_id
                        && e.rga.site_id == rga0.site_id && e.rga.local_sequence
                        == rga0.local_sequence && if has_id(rga0.nodes@, s4vector) {
                        let target = rga0.nodes@[find_id(rga0.nodes@, s4vector)];
                        let sw = spec_sweep(
                            spec_set_tombstone(rga0.nodes@, s4vector),
                            rga0.buffer@,
                        );
                        e.rga.nodes@ == sw.0 && e.rga.buffer@ == sw.1 && r == Ok::<
                            LocalCommit,
                            ApiError,
                        >(
                            LocalCommit {
                                op: BroadcastOperation {
                                    operation: OperationType::Delete,
                                    document_id,
                                    ssn: s4vector.ssn,
                                    sum: s4vector.sum,
                                    sid: s4vector.sid,
                                    seq: s4vector.seq,
                                    value: None,
                                    left: target.left,
                                    right: target.right,
                                },
                                snapshot: DocumentSnapshot {
                                    document_id,
                                    ssn: s4vector.ssn,
                                    sum: s4vector.sum,
                                    sid: s4vector.sid,
                                    seq: s4vector.seq,
                                    value: target.value,
                                    tombstone: true,
                                },
                            },
                        )
                    } else {
                        e.rga.nodes@ == rga0.nodes@ && e.rga.buffer@ == rga0.buffer@.push(
                            delete_op_record(s4vector),
                        ) && r == Err::<LocalCommit, ApiError>(ApiError::DependencyNotMet)
                    }
                }
            }),
    {
        proof {
            lemma_doc_index_props(self.documents@, document_id);
        }
        let di = self.find_doc(document_id);
        if di >= self.documents.len() {
            return Err(ApiError::DocumentNotLoaded);
        }
        if self.documents[di].degraded {
            return Err(ApiError::Unavailable);
        }
        let ghost docs0 = self.documents@;
        let mut entry = self.documents.remove(di);
        let row_value: String = match entry.rga.get_node(&s4vector) {
            Some(n) => n.value.clone(),
            None => String::new(),
        };
        let res = entry.rga.local_delete(s4vector, document_id);
        let ghost entry1 = entry;
        self.documents.insert(di, entry);
        proof {
            vstd::seq_lib::lemma_update_is_remove_insert(docs0, di as int, entry1);
            assert(self.documents@ =~= docs0.update(di as int, entry1));
            lemma_docs_update_keeps_wf(docs0, di as int, entry1);
        }
        match res {
            Ok(op) => {
                let snapshot = DocumentSnapshot {
                    document_id,
                    ssn: op.ssn,
                    sum: op.sum,
                    sid: op.sid,
                    seq: op.seq,
                    value: row_value,
                    tombstone: true,
                };
                Ok(LocalCommit { op, snapshot })
            },
            Err(_) => Err(ApiError::DependencyNotMet),
        }
    }

    /// Merges one inbound broadcast operation, idempotently. An insert or
    /// update without a value is rejected as invalid. On success the shell
    /// receives the snapshot row to upsert — the target's current value and
    /// tombstone — or nothing where the operation was deferred; the log row
    /// is the operation itself, skipped by the store where the quadruple
    /// already exists.
    pub fn remote_apply(&mut self, document_id: u128, op: BroadcastOperation) -> (r: Result<
        Option<DocumentSnapshot>,
        ApiError,
    >)
        requires
            old(self).wf(),
        ensures
            final(self).wf(),
            final(self).replica_id == old(self).replica_id,
            final(self).session_id == old(self).session_id,
            ({
                let docs = old(self).documents@;
                let di = doc_index(docs, document_id);
                let s4 = S4Vector { ssn: op.ssn, sum: op.sum, sid: op.sid, seq: op.seq };
                let rec = Operation {
                    operation: op.operation,
                    s4vector: s4,
                    value: op.value,
                    tombstone: false,
                    left: op.left,
                    right: op.right,
                };
                if !has_doc(docs, document_id) {
                    final(self).documents@ == docs && r == Err::<Option<DocumentSnapshot>, ApiError>(
                        ApiError::DocumentNotLoaded,
                    )
                } else if op.value is None && !(op.operation is Delete) {
                    final(self).documents@ == docs && (r matches Err(ApiError::InvalidRequest(m))
                        && m@ == "value required"@)
                } else {
                    let rga0 = docs[di].rga;
                    let e = final(self).documents@[di];
                    let step = spec_remote_step(rga0.nodes@, rga0.buffer@, rec);
                    final(self).documents@ == docs.update(di, e) && e.document_id == document_id
                        && e.degraded == docs[di].degraded && e.rga.session_id == rga0.session_id
                        && e.rga.site_id == rga0.site_id && e.rga.local_sequence
                        == rga0.local_sequence && e.rga.nodes@ == step.0 && e.rga.buffer@ == step.1
                        && (match r {
                        Ok(opt) => match opt {
                            Some(row) => has_id(e.rga.nodes@, s4) && row == snapshot_row_of(
                                document_id,
                                e.rga.nodes@[find_id(e.rga.nodes@, s4)],
                            ),
                            None => !has_id(e.rga.nodes@, s4),
                        },
                        Err(_) => false,
                    })
                }
            }),
    {
        proof {
            lemma_doc_index_props(self.documents@, document_id);
        }
        let di = self.find_doc(document_id);
        if di >= self.documents.len() {
            return Err(ApiError::DocumentNotLoaded);
        }
        let is_delete = match op.operation {
            OperationType::Delete => true,
            _ => false,
        };
        if op.value.is_none() && !is_delete {
            return Err(ApiError::InvalidRequest("value required".to_owned()));
        }
        let s4 = op.s4vector();
        let rec = Operation {
            operation: op.operation,
            s4vector: s4,
            value: op.value,
            tombstone: false,
            left: op.left,
            right: op.right,
        };
        let ghost docs0 = self.documents@;
        let mut entry = self.documents.remove(di);
        entry.rga.remote_apply(rec);
        let row: Option<DocumentSnapshot> = match entry.rga.get_node(&s4) {
            Some(n) => Some(
                DocumentSnapshot {
                    document_id,
                    ssn: n.s4vector.ssn,
                    sum: n.s4vector.sum,
                    sid: n.s4vector.sid,
                    seq: n.s4vector.seq,
                    value: n.value.clone(),
                    tombstone: n.tombstone,
                },
            ),
            None => None,
        };
        let ghost entry1 = entry;
        self.documents.insert(di, entry);
        proof {
            vstd::seq_lib::lemma_update_is_remove_insert(docs0, di as int, entry1);
            assert(self.documents@ =~= docs0.update(di as int, entry1));
            lemma_docs_update_keeps_wf(docs0, di as int, entry1);
        }
        Ok(row)
    }

    /// The current visible document, for a loaded document.
    pub fn read_document(&self, document_id: u128) -> (r: Result<Vec<String>, ApiError>)
        requires
            self.wf(),
        ensures
            ({
                let docs = self.documents@;
                if has_doc(docs, document_id) {
                    r matches Ok(v) && v@ == crate::rga::live_values(
                        docs[doc_index(docs, document_id)].rga.nodes@,
                    )
                } else {
                    r == Err::<Vec<String>, ApiError>(ApiError::DocumentNotLoaded)
                }
            }),
    {
        proof {
            lemma_doc_index_props(self.documents@, document_id);
        }
        let di = self.find_doc(document_id);
        if di >= self.documents.len() {
            return Err(ApiError::DocumentNotLoaded);
        }
        Ok(self.documents[di].rga.read())
    }

    /// Marks a document degraded after a broadcast give-up: every later
    /// write is rejected with `Unavailable` until an operator clears it.
    pub fn mark_degraded(&mut self, document_id: u128)
        requires
            old(self).wf(),
        ensures
            final(self).wf(),
            final(self).replica_id == old(self).replica_id,
            final(self).session_id == old(self).session_id,
            ({
                let docs = old(self).documents@;
                let di = doc_index(docs, document_id);
                if has_doc(docs, document_id) {
                    let e = final(self).documents@[di];
                    final(self).documents@ == docs.update(di, e) && e.document_id == document_id
                        && e.degraded == true && e.rga == docs[di].rga
                } else {
                    final(self).documents@ == docs
                }
            }),
    {
        proof {
            lemma_doc_index_props(self.documents@, document_id);
        }
        let di = self.find_doc(document_id);
        if di >= self.documents.len() {
            return ;
        }
        let ghost docs0 = self.documents@;
        let mut entry = self.documents.remove(di);
        entry.degraded = true;
        let ghost entry1 = entry;
        self.documents.insert(di, entry);
        proof {
            vstd::seq_lib::lemma_update_is_remove_insert(docs0, di as int, entry1);
            assert(self.documents@ =~= docs0.update(di as int, entry1));
            lemma_docs_update_keeps_wf(docs0, di as int, entry1);
        }
    }
}

/// The backoff delay before the retry that follows `n` failed publishes:
/// the initial delay doubled once per failure, saturating.
pub open spec fn spec_backoff_delay(initial_delay_ms: u64, n: nat) -> u64
    decreases n,
{
    if n == 0 {
        initial_delay_ms
    } else {
        let p = spec_backoff_delay(initial_delay_ms, (n - 1) as nat);
        if p > u64::MAX / 2 {
            u64::MAX
        } else {
            (p * 2) as u64
        }
    }
}

/// The publish-retry decision of the ordered local protocol: after
/// `attempts_made` failed publishes, retry after an exponentially grown
/// delay while the attempt budget lasts, and give up once it is spent —
/// upon which the shell rolls the transaction back and marks the document
/// degraded (`mark_degraded`).
pub fn publish_retry_decision(attempts_made: u32, max_attempts: u32, initial_delay_ms: u64) -> (r:
    Option<u64>)
    ensures
        attempts_made < max_attempts ==> r == Some(
            spec_backoff_delay(initial_delay_ms, attempts_made as nat),
        ),
        attempts_made >= max_attempts ==> r is None,
{
    if attempts_made >= max_attempts {
        return None;
    }
    let mut delay: u64 = initial_delay_ms;
    let mut i: u32 = 0;
    while i < attempts_made
        invariant
            i <= attempts_made,
            delay == spec_backoff_delay(initial_delay_ms, i as nat),
        decreases attempts_made - i,
    {
        if delay > u64::MAX / 2 {
            delay = u64::MAX;
        } else {
            delay = delay * 2;
        }
        i = i + 1;
    }
    Some(delay)
}

/// The title a new document is created under: the given one, or a default
/// where the request carried an empty title.
pub fn create_document_title(title: String) -> (r: String)
    ensures
        title@.len() == 0 ==> r@ == "New document"@,
        title@.len() > 0 ==> r == title,
{
    if title.as_str().is_empty() {
        "New document".to_owned()
    } else {
        title
    }
}

/// The initial snapshot row written when a document is created: an empty
/// value under the zero quadruple of the creating replica, not tombstoned.
pub fn initial_snapshot_row(document_id: u128, replica_id: u64) -> (r: DocumentSnapshot)
    ensures
        r == (DocumentSnapshot {
            document_id,
            ssn: 0u64,
            sum: 0u64,
            sid: replica_id,
            seq: 0u64,
            value: r.value,
            tombstone: false,
        }),
        r.value@ == Seq::<char>::empty(),
{
    DocumentSnapshot {
        document_id,
        ssn: 0,
        sum: 0,
        sid: replica_id,
        seq: 0,
        value: String::new(),
        tombstone: false,
    }
}

/// Updating one entry in place, under the same document identifier and with
/// a well-formed engine, keeps the controller well-formed.
proof fn lemma_docs_update_keeps_wf(docs: Seq<DocumentEntry>, di: int, e: DocumentEntry)
    requires
        0 <= di < docs.len(),
        docs_distinct(docs),
        forall|i: int| 0 <= i < docs.len() ==> (#[trigger] docs[i]).rga.wf(),
        e.document_id == docs[di].document_id,
        e.rga.wf(),
    ensures
        docs_distinct(docs.update(di, e)),
        forall|i: int|
            0 <= i < docs.update(di, e).len() ==> (#[trigger] docs.update(di, e)[i]).rga.wf(),
        doc_index(docs.update(di, e), e.document_id) == doc_index(docs, e.document_id),
{
    let t = docs.update(di, e);
    assert forall|i: int, j: int|
        0 <= i < j < t.len() implies t[i].document_id != t[j].document_id by {
        assert(t[i].document_id == docs[i].document_id);
        assert(t[j].document_id == docs[j].document_id);
    }
    assert forall|i: int| 0 <= i < t.len() implies (#[trigger] t[i]).rga.wf() by {
        if i != di {
            assert(t[i] == docs[i]);
        }
    }
    lemma_doc_index_props(docs, e.document_id);
    assert forall|j: int|
        0 <= j < doc_index(docs, e.document_id) implies t[j].document_id != e.document_id by {
        assert(t[j].document_id == docs[j].document_id);
    }
    lemma_doc_index_is(t, e.document_id, doc_index(docs, e.document_id));
}

} // verus!
