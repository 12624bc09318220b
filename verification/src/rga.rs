//! The RGA engine: a Replicated Growable Array, a list CRDT in which each
//! element carries an immutable S4Vector identifier and a soft-delete flag.
//!
//! The document is held as a vector of nodes in traversal order. Concurrent
//! inserts at the same anchor settle in decreasing S4Vector order, so every
//! replica reduces the same set of operations to the same visible sequence.
//! Operations whose dependencies have not arrived yet wait in an ordered
//! buffer and are promoted by a single in-order sweep after every successful
//! apply.

use vstd::prelude::*;

use crate::messages::BroadcastOperation;
use crate::s4vector::{s4_lt, spec_generate, spec_opt_s4, S4Vector};

verus! {

/// A node of the array: the payload value, its immutable identifier, the
/// soft-delete flag, and the birth anchors recorded when the node was
/// created. Anchors name causal neighbours at insertion time, not current
/// neighbours in the live list.
#[derive(Debug, Clone)]
pub struct Node {
    pub value: String,
    pub s4vector: S4Vector,
    pub tombstone: bool,
    pub left: Option<S4Vector>,
    pub right: Option<S4Vector>,
}

impl Node {
    /// A freshly inserted node: not tombstoned, anchored as given.
    pub fn new(
        value: String,
        s4: S4Vector,
        left: Option<S4Vector>,
        right: Option<S4Vector>,
    ) -> (r: Node)
        ensures
            r == (Node { value, s4vector: s4, tombstone: false, left, right }),
    {
        Node { value, s4vector: s4, tombstone: false, left, right }
    }

    /// A node rebuilt from persisted state, tombstone included.
    pub fn create_from_existing(
        s4: S4Vector,
        value: String,
        tombstone: bool,
        left: Option<S4Vector>,
        right: Option<S4Vector>,
    ) -> (r: Node)
        ensures
            r == (Node { value, s4vector: s4, tombstone, left, right }),
    {
        Node { value, s4vector: s4, tombstone, left, right }
    }
}

/// The kind of an operation applied to the array.
#[derive(Debug, Clone, Copy, PartialEq, Eq, Structural)]
pub enum OperationType {
    Insert,
    Update,
    Delete,
}

/// A buffered or replayed operation: its kind, identifier, payload, and
/// birth anchors. `value` is absent for a delete.
#[derive(Debug, Clone)]
pub struct Operation {
    pub operation: OperationType,
    pub s4vector: S4Vector,
    pub value: Option<String>,
    pub tombstone: bool,
    pub left: Option<S4Vector>,
    pub right: Option<S4Vector>,
}

/// The error an operation signals when a named anchor or target has not
/// arrived yet: the operation has been queued for later promotion and must
/// not be logged or broadcast.
#[derive(Debug, Clone, Copy, PartialEq, Eq, Structural)]
pub enum OperationError {
    DependencyNotMet,
}

// ---------------------------------------------------------------------------
// The mathematical model: the array as a sequence of nodes.
// ---------------------------------------------------------------------------
/// Index of the first node carrying `id`, or `s.len()` where none does.
pub open spec fn find_id(s: Seq<Node>, id: S4Vector) -> int
    decreases s.len(),
{
    if s.len() == 0 {
        0
    } else if s[0].s4vector == id {
        0
    } else {
        1 + find_id(s.drop_first(), id)
    }
}

/// Whether some node of `s` carries `id`.
pub open spec fn has_id(s: Seq<Node>, id: S4Vector) -> bool {
    find_id(s, id) < s.len()
}

/// `find_id` is the first occurrence: it is in bounds, it points at `id`
/// when `id` occurs, and nothing earlier carries `id`.
pub proof fn lemma_find_id_props(s: Seq<Node>, id: S4Vector)
    ensures
        0 <= find_id(s, id) <= s.len(),
        find_id(s, id) < s.len() ==> s[find_id(s, id)].s4vector == id,
        forall|j: int| 0 <= j < find_id(s, id) ==> s[j].s4vector != id,
        find_id(s, id) == s.len() ==> forall|j: int| 0 <= j < s.len() ==> s[j].s4vector != id,
    decreases s.len(),
{
    if s.len() > 0 && s[0].s4vector != id {
        let t = s.drop_first();
        lemma_find_id_props(t, id);
        assert forall|j: int| 0 <= j < find_id(s, id) implies s[j].s4vector != id by {
            if j >= 1 {
                assert(s[j] == t[j - 1]);
            }
        }
        if find_id(s, id) == s.len() {
            assert forall|j: int| 0 <= j < s.len() implies s[j].s4vector != id by {
                if j >= 1 {
                    assert(s[j] == t[j - 1]);
                }
            }
        }
    }
}

/// Any index with the first-occurrence properties is `find_id`.
pub proof fn lemma_find_id_is(s: Seq<Node>, id: S4Vector, k: int)
    requires
        0 <= k <= s.len(),
        forall|j: int| 0 <= j < k ==> s[j].s4vector != id,
        k < s.len() ==> s[k].s4vector == id,
        k == s.len() ==> forall|j: int| 0 <= j < s.len() ==> s[j].s4vector != id,
    ensures
        find_id(s, id) == k,
    decreases s.len(),
{
    if s.len() == 0 {
    } else if s[0].s4vector == id {
        assert(k == 0);
    } else {
        assert(k >= 1);
        let t = s.drop_first();
        assert(forall|j: int| 0 <= j < t.len() ==> t[j] == s[j + 1]);
        lemma_find_id_is(t, id, k - 1);
    }
}

/// The landing slot: starting at `from`, the first position whose node does
/// not exceed `id` in the total order, or the end of the sequence.
pub open spec fn slot_from(s: Seq<Node>, from: int, id: S4Vector) -> int
    decreases s.len() - from,
{
    if from >= s.len() {
        from
    } else if s4_lt(id, s[from].s4vector) {
        slot_from(s, from + 1, id)
    } else {
        from
    }
}

/// The landing slot lies between the scan start and the end; every node the
/// scan skipped exceeds `id`; the node at the slot, if any, does not.
pub proof fn lemma_slot_props(s: Seq<Node>, from: int, id: S4Vector)
    requires
        0 <= from <= s.len(),
    ensures
        from <= slot_from(s, from, id) <= s.len(),
        forall|j: int| from <= j < slot_from(s, from, id) ==> s4_lt(id, s[j].s4vector),
        slot_from(s, from, id) < s.len() ==> !s4_lt(id, s[slot_from(s, from, id)].s4vector),
    decreases s.len() - from,
{
    if from < s.len() && s4_lt(id, s[from].s4vector) {
        lemma_slot_props(s, from + 1, id);
    }
}

/// Any position with the landing-slot properties is the landing slot.
pub proof fn lemma_slot_is(s: Seq<Node>, from: int, id: S4Vector, k: int)
    requires
        0 <= from <= k <= s.len(),
        forall|j: int| from <= j < k ==> s4_lt(id, s[j].s4vector),
        k < s.len() ==> !s4_lt(id, s[k].s4vector),
    ensures
        slot_from(s, from, id) == k,
    decreases k - from,
{
    if from < k {
        lemma_slot_is(s, from + 1, id, k);
    }
}

/// The scan start for an insert: just after the left anchor, or the head of
/// the list where the anchor is absent.
pub open spec fn insert_start(s: Seq<Node>, left: Option<S4Vector>) -> int {
    match left {
        Some(l) => find_id(s, l) + 1,
        None => 0,
    }
}

/// The position at which a new node settles.
pub open spec fn insert_pos(s: Seq<Node>, n: Node) -> int {
    slot_from(s, insert_start(s, n.left), n.s4vector)
}

/// The sequence after splicing in a new node at its landing slot.
pub open spec fn spec_insert_node(s: Seq<Node>, n: Node) -> Seq<Node> {
    s.insert(insert_pos(s, n), n)
}

/// The sequence after setting the tombstone of the node carrying `id`; the
/// sequence is unchanged where no node carries it.
pub open spec fn spec_set_tombstone(s: Seq<Node>, id: S4Vector) -> Seq<Node> {
    if has_id(s, id) {
        let i = find_id(s, id);
        s.update(
            i,
            Node {
                value: s[i].value,
                s4vector: s[i].s4vector,
                tombstone: true,
                left: s[i].left,
                right: s[i].right,
            },
        )
    } else {
        s
    }
}

/// The sequence after replacing the value of the node carrying `id`; a
/// tombstoned node, and an absent one, leave the sequence unchanged.
pub open spec fn spec_set_value(s: Seq<Node>, id: S4Vector, value: String) -> Seq<Node> {
    if has_id(s, id) {
        let i = find_id(s, id);
        if s[i].tombstone {
            s
        } else {
            s.update(
                i,
                Node {
                    value: value,
                    s4vector: s[i].s4vector,
                    tombstone: false,
                    left: s[i].left,
                    right: s[i].right,
                },
            )
        }
    } else {
        s
    }
}

// ---------------------------------------------------------------------------
// Well-formedness.
// ---------------------------------------------------------------------------
/// No two nodes share an identifier.
pub open spec fn ids_distinct(s: Seq<Node>) -> bool {
    forall|i: int, j: int| 0 <= i < j < s.len() ==> s[i].s4vector != s[j].s4vector
}

/// Every node naming a left anchor lies strictly after a node carrying that
/// anchor's identifier: an operation is never visible before the operation
/// it names as its left anchor.
pub open spec fn anchor_ok(s: Seq<Node>, i: int) -> bool {
    match s[i].left {
        Some(l) => exists|j: int| 0 <= j < i && #[trigger] s[j].s4vector == l,
        None => true,
    }
}

pub open spec fn anchors_precede(s: Seq<Node>) -> bool {
    forall|i: int| 0 <= i < s.len() ==> #[trigger] anchor_ok(s, i)
}

// ---------------------------------------------------------------------------
// Dependencies, application of a single ready operation, and the sweep.
// ---------------------------------------------------------------------------
/// Whether the dependencies of an operation are present: the named left
/// anchor, and, for update and delete, the target. The right anchor is
/// informational and does not gate application.
pub open spec fn deps_met(s: Seq<Node>, op: Operation) -> bool {
    match op.operation {
        OperationType::Insert => match op.left {
            Some(l) => has_id(s, l),
            None => true,
        },
        OperationType::Update => (match op.left {
            Some(l) => has_id(s, l),
            None => true,
        }) && has_id(s, op.s4vector),
        OperationType::Delete => (match op.left {
            Some(l) => has_id(s, l),
            None => true,
        }) && has_id(s, op.s4vector),
    }
}

/// The node created by an insert operation carrying value `v`.
pub open spec fn insert_node_of(op: Operation, v: String) -> Node {
    Node { value: v, s4vector: op.s4vector, tombstone: false, left: op.left, right: op.right }
}

/// The sequence after applying one operation whose dependencies are met.
/// An insert whose identifier is already present is ignored; updates and
/// deletes are idempotent.
pub open spec fn spec_apply_op(s: Seq<Node>, op: Operation) -> Seq<Node> {
    match op.operation {
        OperationType::Insert => if has_id(s, op.s4vector) {
            s
        } else {
            match op.value {
                Some(v) => spec_insert_node(s, insert_node_of(op, v)),
                None => s,
            }
        },
        OperationType::Update => match op.value {
            Some(v) => spec_set_value(s, op.s4vector, v),
            None => s,
        },
        OperationType::Delete => spec_set_tombstone(s, op.s4vector),
    }
}

/// One in-order pass over the pending buffer: each entry whose dependencies
/// are now present is applied and removed; the others are retained in their
/// original relative order. The pass is not re-entrant: it runs once.
pub open spec fn spec_sweep(s: Seq<Node>, pend: Seq<Operation>) -> (Seq<Node>, Seq<Operation>)
    decreases pend.len(),
{
    if pend.len() == 0 {
        (s, Seq::<Operation>::empty())
    } else {
        let op = pend[0];
        if deps_met(s, op) {
            spec_sweep(spec_apply_op(s, op), pend.drop_first())
        } else {
            let r = spec_sweep(s, pend.drop_first());
            (r.0, seq![op] + r.1)
        }
    }
}

// ---------------------------------------------------------------------------
// Operation equality and duplicate-free buffering.
// ---------------------------------------------------------------------------
/// The payload of an optional value, as a sequence of characters.
pub open spec fn opt_str_view(o: Option<String>) -> Option<Seq<char>> {
    match o {
        Some(s) => Some(s@),
        None => None,
    }
}

/// Two operation records describe the same operation: equal in every field,
/// values compared by content.
pub open spec fn op_eq(a: Operation, b: Operation) -> bool {
    a.operation == b.operation && a.s4vector == b.s4vector && a.tombstone == b.tombstone
        && a.left == b.left && a.right == b.right && opt_str_view(a.value) == opt_str_view(b.value)
}

/// Whether an equal operation is already waiting in the buffer.
pub open spec fn buffer_has(pend: Seq<Operation>, op: Operation) -> bool {
    exists|i: int| 0 <= i < pend.len() && op_eq(#[trigger] pend[i], op)
}

/// Buffering of a remote operation suppresses exact duplicates, so that
/// redelivery of a still-unsatisfied operation leaves the state unchanged.
pub open spec fn spec_buffer_push(pend: Seq<Operation>, op: Operation) -> Seq<Operation> {
    if buffer_has(pend, op) {
        pend
    } else {
        pend.push(op)
    }
}

// ---------------------------------------------------------------------------
// Preservation: nodes are never removed, tombstones are monotone.
// ---------------------------------------------------------------------------
/// Node `i` of `a` survives into `b`: some node of `b` carries the same
/// identifier, and a set tombstone stays set.
pub open spec fn node_preserved(a: Seq<Node>, b: Seq<Node>, i: int) -> bool {
    exists|j: int|
        0 <= j < b.len() && (#[trigger] b[j]).s4vector == a[i].s4vector && (a[i].tombstone
            ==> b[j].tombstone)
}

/// Every node of `a` survives into `b`: no sequence of operations removes a
/// node or clears a tombstone.
pub open spec fn nodes_preserved(a: Seq<Node>, b: Seq<Node>) -> bool {
    forall|i: int| 0 <= i < a.len() ==> #[trigger] node_preserved(a, b, i)
}

pub proof fn lemma_preserved_refl(a: Seq<Node>)
    ensures
        nodes_preserved(a, a),
{
    assert forall|i: int| 0 <= i < a.len() implies #[trigger] node_preserved(a, a, i) by {
        let n = a[i];
        assert(0 <= i < a.len() && a[i].s4vector == n.s4vector && (n.tombstone
            ==> a[i].tombstone));
    }
}

pub proof fn lemma_preserved_trans(a: Seq<Node>, b: Seq<Node>, c: Seq<Node>)
    requires
        nodes_preserved(a, b),
        nodes_preserved(b, c),
    ensures
        nodes_preserved(a, c),
{
    assert forall|i: int| 0 <= i < a.len() implies #[trigger] node_preserved(a, c, i) by {
        assert(node_preserved(a, b, i));
        let j = choose|j: int|
            0 <= j < b.len() && (#[trigger] b[j]).s4vector == a[i].s4vector && (a[i].tombstone
                ==> b[j].tombstone);
        assert(node_preserved(b, c, j));
        let k = choose|k: int|
            0 <= k < c.len() && (#[trigger] c[k]).s4vector == b[j].s4vector && (b[j].tombstone
                ==> c[k].tombstone);
        assert(0 <= k < c.len() && c[k].s4vector == a[i].s4vector && (a[i].tombstone
            ==> c[k].tombstone));
    }
}

// ---------------------------------------------------------------------------
// Well-formedness and preservation through each transition.
// ---------------------------------------------------------------------------
/// The landing position of a node whose left anchor, if named, is present:
/// at or after the scan start, within bounds.
pub proof fn lemma_insert_pos_bounds(s: Seq<Node>, n: Node)
    requires
        (n.left matches Some(l) ==> has_id(s, l)),
    ensures
        0 <= insert_start(s, n.left) <= insert_pos(s, n) <= s.len(),
{
    match n.left {
        Some(l) => {
            lemma_find_id_props(s, l);
            lemma_slot_props(s, find_id(s, l) + 1, n.s4vector);
        },
        None => {
            lemma_slot_props(s, 0, n.s4vector);
        },
    }
}

/// Splicing a fresh node at its landing slot keeps identifiers distinct,
/// keeps every left anchor strictly earlier than the node naming it, and
/// preserves all existing nodes.
pub proof fn lemma_insert_preserves_wf(s: Seq<Node>, n: Node)
    requires
        ids_distinct(s),
        anchors_precede(s),
        !has_id(s, n.s4vector),
        (n.left matches Some(l) ==> has_id(s, l)),
    ensures
        ids_distinct(spec_insert_node(s, n)),
        anchors_precede(spec_insert_node(s, n)),
        nodes_preserved(s, spec_insert_node(s, n)),
        spec_insert_node(s, n).len() == s.len() + 1,
        has_id(spec_insert_node(s, n), n.s4vector),
{
    let p = insert_pos(s, n);
    let t = spec_insert_node(s, n);
    lemma_insert_pos_bounds(s, n);
    s.insert_ensures(p, n);
    lemma_find_id_props(s, n.s4vector);
    assert(forall|k: int| 0 <= k < s.len() ==> s[k].s4vector != n.s4vector);

    assert forall|i: int, j: int| 0 <= i < j < t.len() implies t[i].s4vector != t[j].s4vector by {
        if i == p {
            assert(t[j] == s[j - 1]);
        } else if j == p {
            assert(t[i] == s[i]);
        } else {
            let i0 = if i < p { i } else { i - 1 };
            let j0 = if j < p { j } else { j - 1 };
            assert(t[i] == s[i0]);
            assert(t[j] == s[j0]);
            assert(i0 < j0);
        }
    }

    assert forall|i: int| 0 <= i < t.len() implies #[trigger] anchor_ok(t, i) by {
        if i == p {
            match n.left {
                Some(l) => {
                    let f = find_id(s, l);
                    lemma_find_id_props(s, l);
                    lemma_slot_props(s, f + 1, n.s4vector);
                    assert(f < p);
                    assert(t[f] == s[f]);
                    assert(t[f].s4vector == l);
                },
                None => {},
            }
        } else {
            let i0 = if i < p { i } else { i - 1 };
            assert(t[i] == s[i0]);
            assert(anchor_ok(s, i0));
            match s[i0].left {
                Some(l) => {
                    let j = choose|j: int| 0 <= j < i0 && #[trigger] s[j].s4vector == l;
                    if j < p {
                        assert(t[j] == s[j]);
                        assert(0 <= j < i && t[j].s4vector == l);
                    } else {
                        assert(t[j + 1] == s[j]);
                        assert(0 <= j + 1 < i && t[j + 1].s4vector == l);
                    }
                },
                None => {},
            }
        }
    }

    assert forall|i: int| 0 <= i < s.len() implies #[trigger] node_preserved(s, t, i) by {
        if i < p {
            assert(t[i] == s[i]);
            assert(0 <= i < t.len() && t[i].s4vector == s[i].s4vector && (s[i].tombstone
                ==> t[i].tombstone));
        } else {
            assert(t[i + 1] == s[i]);
            assert(0 <= i + 1 < t.len() && t[i + 1].s4vector == s[i].s4vector && (s[i].tombstone
                ==> t[i + 1].tombstone));
        }
    }

    assert(t[p].s4vector == n.s4vector);
    lemma_find_id_props(t, n.s4vector);
    if find_id(t, n.s4vector) == t.len() {
        assert(t[p].s4vector != n.s4vector);
    }
}

/// Setting a tombstone changes one flag and nothing else: well-formedness
/// and all nodes are preserved, and identifiers keep their positions.
pub proof fn lemma_set_tombstone_preserves_wf(s: Seq<Node>, id: S4Vector)
    requires
        ids_distinct(s),
        anchors_precede(s),
    ensures
        ids_distinct(spec_set_tombstone(s, id)),
        anchors_precede(spec_set_tombstone(s, id)),
        nodes_preserved(s, spec_set_tombstone(s, id)),
        spec_set_tombstone(s, id).len() == s.len(),
        forall|k: int|
            0 <= k < s.len() ==> (#[trigger] spec_set_tombstone(s, id)[k]).s4vector
                == s[k].s4vector && spec_set_tombstone(s, id)[k].left == s[k].left,
{
    let t = spec_set_tombstone(s, id);
    if has_id(s, id) {
        lemma_find_id_props(s, id);
        lemma_pointwise_keeps_wf(s, t);
    } else {
        lemma_preserved_refl(s);
    }
}

/// Replacing the value of a live node: the same, with tombstones unchanged.
pub proof fn lemma_set_value_preserves_wf(s: Seq<Node>, id: S4Vector, value: String)
    requires
        ids_distinct(s),
        anchors_precede(s),
    ensures
        ids_distinct(spec_set_value(s, id, value)),
        anchors_precede(spec_set_value(s, id, value)),
        nodes_preserved(s, spec_set_value(s, id, value)),
        spec_set_value(s, id, value).len() == s.len(),
        forall|k: int|
            0 <= k < s.len() ==> (#[trigger] spec_set_value(s, id, value)[k]).s4vector
                == s[k].s4vector && spec_set_value(s, id, value)[k].left == s[k].left
                && spec_set_value(s, id, value)[k].tombstone == s[k].tombstone,
{
    let t = spec_set_value(s, id, value);
    if has_id(s, id) {
        lemma_find_id_props(s, id);
        if !s[find_id(s, id)].tombstone {
            lemma_pointwise_keeps_wf(s, t);
        } else {
            lemma_preserved_refl(s);
        }
    } else {
        lemma_preserved_refl(s);
    }
}

/// A pointwise change that keeps every identifier, left anchor and position,
/// and never clears a tombstone, keeps well-formedness and preserves nodes.
proof fn lemma_pointwise_keeps_wf(s: Seq<Node>, t: Seq<Node>)
    requires
        ids_distinct(s),
        anchors_precede(s),
        t.len() == s.len(),
        forall|k: int|
            0 <= k < s.len() ==> (#[trigger] t[k]).s4vector == s[k].s4vector && t[k].left
                == s[k].left && (s[k].tombstone ==> t[k].tombstone),
    ensures
        ids_distinct(t),
        anchors_precede(t),
        nodes_preserved(s, t),
{
    assert forall|i: int| 0 <= i < t.len() implies #[trigger] anchor_ok(t, i) by {
        assert(anchor_ok(s, i));
        match s[i].left {
            Some(l) => {
                let j = choose|j: int| 0 <= j < i && #[trigger] s[j].s4vector == l;
                assert(t[j].s4vector == l);
            },
            None => {},
        }
    }
    assert forall|i: int| 0 <= i < s.len() implies #[trigger] node_preserved(s, t, i) by {
        assert(0 <= i < t.len() && t[i].s4vector == s[i].s4vector && (s[i].tombstone
            ==> t[i].tombstone));
    }
}

/// Applying one ready operation keeps well-formedness and preserves nodes.
pub proof fn lemma_apply_op_preserves_wf(s: Seq<Node>, op: Operation)
    requires
        ids_distinct(s),
        anchors_precede(s),
        deps_met(s, op),
    ensures
        ids_distinct(spec_apply_op(s, op)),
        anchors_precede(spec_apply_op(s, op)),
        nodes_preserved(s, spec_apply_op(s, op)),
{
    match op.operation {
        OperationType::Insert => {
            if !has_id(s, op.s4vector) {
                match op.value {
                    Some(v) => {
                        lemma_insert_preserves_wf(s, insert_node_of(op, v));
                    },
                    None => {
                        lemma_preserved_refl(s);
                    },
                }
            } else {
                lemma_preserved_refl(s);
            }
        },
        OperationType::Update => {
            match op.value {
                Some(v) => {
                    lemma_set_value_preserves_wf(s, op.s4vector, v);
                },
                None => {
                    lemma_preserved_refl(s);
                },
            }
        },
        OperationType::Delete => {
            lemma_set_tombstone_preserves_wf(s, op.s4vector);
        },
    }
}

/// The sweep keeps well-formedness and preserves nodes.
pub proof fn lemma_sweep_preserves_wf(s: Seq<Node>, pend: Seq<Operation>)
    requires
        ids_distinct(s),
        anchors_precede(s),
    ensures
        ids_distinct(spec_sweep(s, pend).0),
        anchors_precede(spec_sweep(s, pend).0),
        nodes_preserved(s, spec_sweep(s, pend).0),
    decreases pend.len(),
{
    if pend.len() == 0 {
        lemma_preserved_refl(s);
    } else {
        let op = pend[0];
        if deps_met(s, op) {
            lemma_apply_op_preserves_wf(s, op);
            lemma_sweep_preserves_wf(spec_apply_op(s, op), pend.drop_first());
            lemma_preserved_trans(
                s,
                spec_apply_op(s, op),
                spec_sweep(spec_apply_op(s, op), pend.drop_first()).0,
            );
        } else {
            lemma_sweep_preserves_wf(s, pend.drop_first());
        }
    }
}

/// Causal safety, spelt out: the left anchor of every node occurs in the
/// array, and its first occurrence lies strictly earlier in traversal order.
pub proof fn lemma_causal_safety(s: Seq<Node>, i: int)
    requires
        anchors_precede(s),
        0 <= i < s.len(),
        s[i].left matches Some(l),
    ensures
        s[i].left matches Some(l) ==> has_id(s, l) && find_id(s, l) < i,
{
    let l = s[i].left->Some_0;
    assert(anchor_ok(s, i));
    let j = choose|j: int| 0 <= j < i && #[trigger] s[j].s4vector == l;
    lemma_find_id_props(s, l);
    assert(find_id(s, l) <= j);
}

// ---------------------------------------------------------------------------
// Executable helpers over the node vector.
// ---------------------------------------------------------------------------
/// Linear search for the first node carrying `id`.
fn find_node(nodes: &Vec<Node>, id: &S4Vector) -> (r: usize)
    ensures
        r as int == find_id(nodes@, *id),
{
    let n = nodes.len();
    let mut i: usize = 0;
    while i < n
        invariant
            i <= n,
            n == nodes@.len(),
            forall|j: int| 0 <= j < i ==> (#[trigger] nodes@[j]).s4vector != *id,
        decreases n - i,
    {
        if nodes[i].s4vector == *id {
            proof {
                lemma_find_id_is(nodes@, *id, i as int);
            }
            return i;
        }
        i = i + 1;
    }
    proof {
        lemma_find_id_is(nodes@, *id, n as int);
    }
    n
}

/// Whether some node carries `id`.
fn contains_node(nodes: &Vec<Node>, id: &S4Vector) -> (r: bool)
    ensures
        r == has_id(nodes@, *id),
{
    let i = find_node(nodes, id);
    proof {
        lemma_find_id_props(nodes@, *id);
    }
    i < nodes.len()
}

/// The landing-slot scan: from `start`, skip every node that exceeds `id`
/// in the total order, and stop at the first that does not.
fn slot_scan(nodes: &Vec<Node>, start: usize, id: &S4Vector) -> (r: usize)
    requires
        start <= nodes@.len(),
    ensures
        r as int == slot_from(nodes@, start as int, *id),
        start <= r <= nodes@.len(),
{
    let n = nodes.len();
    let mut i: usize = start;
    while i < n
        invariant
            start <= i <= n,
            n == nodes@.len(),
            forall|j: int| start <= j < i ==> s4_lt(*id, (#[trigger] nodes@[j]).s4vector),
        decreases n - i,
    {
        if !id.is_less(&nodes[i].s4vector) {
            proof {
                lemma_slot_is(nodes@, start as int, *id, i as int);
            }
            return i;
        }
        i = i + 1;
    }
    proof {
        lemma_slot_is(nodes@, start as int, *id, n as int);
    }
    n
}

/// Splices a fresh node at its landing slot.
fn insert_ready_node(nodes: &mut Vec<Node>, node: Node)
    requires
        ids_distinct(old(nodes)@),
        anchors_precede(old(nodes)@),
        !has_id(old(nodes)@, node.s4vector),
        (node.left matches Some(l) ==> has_id(old(nodes)@, l)),
    ensures
        final(nodes)@ == spec_insert_node(old(nodes)@, node),
        ids_distinct(final(nodes)@),
        anchors_precede(final(nodes)@),
        nodes_preserved(old(nodes)@, final(nodes)@),
{
    proof {
        lemma_insert_pos_bounds(nodes@, node);
        lemma_insert_preserves_wf(nodes@, node);
    }
    let start: usize = match &node.left {
        Some(l) => {
            proof {
                assert(has_id(nodes@, *l));
                lemma_find_id_props(nodes@, *l);
            }
            let f = find_node(nodes, l);
            let n_len = nodes.len();
            assert(f < n_len);
            f + 1
        },
        None => 0,
    };
    let pos = slot_scan(nodes, start, &node.s4vector);
    nodes.insert(pos, node);
}

/// Sets the tombstone of the node carrying `id`.
fn set_tombstone_at(nodes: &mut Vec<Node>, id: &S4Vector)
    requires
        has_id(old(nodes)@, *id),
    ensures
        final(nodes)@ == spec_set_tombstone(old(nodes)@, *id),
{
    proof {
        lemma_find_id_props(nodes@, *id);
    }
    let i = find_node(nodes, id);
    let mut node = nodes.remove(i);
    node.tombstone = true;
    let ghost updated = node;
    nodes.insert(i, node);
    proof {
        vstd::seq_lib::lemma_update_is_remove_insert(old(nodes)@, i as int, updated);
        assert(final(nodes)@ =~= spec_set_tombstone(old(nodes)@, *id));
    }
}

/// Replaces the value of the node carrying `id`, unless it is tombstoned.
fn set_value_at(nodes: &mut Vec<Node>, id: &S4Vector, value: String)
    requires
        has_id(old(nodes)@, *id),
    ensures
        final(nodes)@ == spec_set_value(old(nodes)@, *id, value),
{
    proof {
        lemma_find_id_props(nodes@, *id);
    }
    let i = find_node(nodes, id);
    if !nodes[i].tombstone {
        let mut node = nodes.remove(i);
        node.value = value;
        let ghost updated = node;
        nodes.insert(i, node);
        proof {
            vstd::seq_lib::lemma_update_is_remove_insert(old(nodes)@, i as int, updated);
            assert(final(nodes)@ =~= spec_set_value(old(nodes)@, *id, value));
        }
    }
}

/// Whether the dependencies of an operation are present in the array.
fn deps_met_exec(nodes: &Vec<Node>, op: &Operation) -> (r: bool)
    ensures
        r == deps_met(nodes@, *op),
{
    let left_ok = match &op.left {
        Some(l) => contains_node(nodes, l),
        None => true,
    };
    match op.operation {
        OperationType::Insert => left_ok,
        OperationType::Update => left_ok && contains_node(nodes, &op.s4vector),
        OperationType::Delete => left_ok && contains_node(nodes, &op.s4vector),
    }
}

/// Applies one operation whose dependencies are met.
fn apply_ready_op(nodes: &mut Vec<Node>, op: Operation)
    requires
        ids_distinct(old(nodes)@),
        anchors_precede(old(nodes)@),
        deps_met(old(nodes)@, op),
    ensures
        final(nodes)@ == spec_apply_op(old(nodes)@, op),
        ids_distinct(final(nodes)@),
        anchors_precede(final(nodes)@),
        nodes_preserved(old(nodes)@, final(nodes)@),
{
    proof {
        lemma_apply_op_preserves_wf(nodes@, op);
    }
    match op.operation {
        OperationType::Insert => {
            if !contains_node(nodes, &op.s4vector) {
                match op.value {
                    Some(v) => {
                        let node = Node {
                            value: v,
                            s4vector: op.s4vector,
                            tombstone: false,
                            left: op.left,
                            right: op.right,
                        };
                        insert_ready_node(nodes, node);
                    },
                    None => {},
                }
            }
        },
        OperationType::Update => {
            match op.value {
                Some(v) => {
                    set_value_at(nodes, &op.s4vector, v);
                },
                None => {},
            }
        },
        OperationType::Delete => {
            set_tombstone_at(nodes, &op.s4vector);
        },
    }
}

/// Whether two operation records describe the same operation.
fn ops_equal(a: &Operation, b: &Operation) -> (r: bool)
    ensures
        r == op_eq(*a, *b),
{
    let kind_eq = match (a.operation, b.operation) {
        (OperationType::Insert, OperationType::Insert) => true,
        (OperationType::Update, OperationType::Update) => true,
        (OperationType::Delete, OperationType::Delete) => true,
        _ => false,
    };
    let value_eq = match (&a.value, &b.value) {
        (Some(x), Some(y)) => x.eq(y),
        (None, None) => true,
        _ => false,
    };
    let left_eq = match (&a.left, &b.left) {
        (Some(x), Some(y)) => *x == *y,
        (None, None) => true,
        _ => false,
    };
    let right_eq = match (&a.right, &b.right) {
        (Some(x), Some(y)) => *x == *y,
        (None, None) => true,
        _ => false,
    };
    kind_eq && a.s4vector == b.s4vector && a.tombstone == b.tombstone && left_eq && right_eq
        && value_eq
}

// ---------------------------------------------------------------------------
// Whole-state transitions for remote operations.
// ---------------------------------------------------------------------------
/// Whether every named anchor is present. Local operations gate on both
/// anchors; remote inserts gate on the left anchor alone.
pub open spec fn anchors_present(
    s: Seq<Node>,
    left: Option<S4Vector>,
    right: Option<S4Vector>,
) -> bool {
    (match left {
        Some(l) => has_id(s, l),
        None => true,
    }) && (match right {
        Some(r) => has_id(s, r),
        None => true,
    })
}

/// The operation record buffered for an insert.
pub open spec fn insert_op_record(
    s4: S4Vector,
    value: String,
    left: Option<S4Vector>,
    right: Option<S4Vector>,
) -> Operation {
    Operation {
        operation: OperationType::Insert,
        s4vector: s4,
        value: Some(value),
        tombstone: false,
        left,
        right,
    }
}

/// The operation record buffered for an update.
pub open spec fn update_op_record(s4: S4Vector, value: String) -> Operation {
    Operation {
        operation: OperationType::Update,
        s4vector: s4,
        value: Some(value),
        tombstone: false,
        left: None,
        right: None,
    }
}

/// The operation record buffered for a delete.
pub open spec fn delete_op_record(s4: S4Vector) -> Operation {
    Operation {
        operation: OperationType::Delete,
        s4vector: s4,
        value: None,
        tombstone: false,
        left: None,
        right: None,
    }
}

/// The state transition of a remote insert: a duplicate identifier is
/// ignored; a missing left anchor buffers the operation; otherwise the node
/// is spliced at its landing slot and the buffer is swept once.
pub open spec fn spec_remote_insert(
    s: Seq<Node>,
    pend: Seq<Operation>,
    value: String,
    s4: S4Vector,
    left: Option<S4Vector>,
    right: Option<S4Vector>,
) -> (Seq<Node>, Seq<Operation>) {
    if has_id(s, s4) {
        (s, pend)
    } else if !(match left {
        Some(l) => has_id(s, l),
        None => true,
    }) {
        (s, spec_buffer_push(pend, insert_op_record(s4, value, left, right)))
    } else {
        spec_sweep(
            spec_insert_node(s, (Node { value, s4vector: s4, tombstone: false, left, right })),
            pend,
        )
    }
}

/// The state transition of a remote update: a missing target buffers the
/// operation; otherwise the value of the live target is replaced and the
/// buffer is swept once.
pub open spec fn spec_remote_update(
    s: Seq<Node>,
    pend: Seq<Operation>,
    s4: S4Vector,
    value: String,
) -> (Seq<Node>, Seq<Operation>) {
    if has_id(s, s4) {
        spec_sweep(spec_set_value(s, s4, value), pend)
    } else {
        (s, spec_buffer_push(pend, update_op_record(s4, value)))
    }
}

/// The state transition of a remote delete: a missing target buffers the
/// operation; otherwise the tombstone is set and the buffer is swept once.
pub open spec fn spec_remote_delete(s: Seq<Node>, pend: Seq<Operation>, s4: S4Vector) -> (
    Seq<Node>,
    Seq<Operation>,
) {
    if has_id(s, s4) {
        spec_sweep(spec_set_tombstone(s, s4), pend)
    } else {
        (s, spec_buffer_push(pend, delete_op_record(s4)))
    }
}

/// The state transition of one delivery of a remote operation. An insert or
/// update without a value carries nothing to apply and is ignored.
pub open spec fn spec_remote_step(s: Seq<Node>, pend: Seq<Operation>, op: Operation) -> (
    Seq<Node>,
    Seq<Operation>,
) {
    match op.operation {
        OperationType::Insert => match op.value {
            Some(v) => spec_remote_insert(s, pend, v, op.s4vector, op.left, op.right),
            None => (s, pend),
        },
        OperationType::Update => match op.value {
            Some(v) => spec_remote_update(s, pend, op.s4vector, v),
            None => (s, pend),
        },
        OperationType::Delete => spec_remote_delete(s, pend, op.s4vector),
    }
}

/// The visible document: the values of the non-tombstoned nodes, in
/// traversal order.
pub open spec fn live_values(s: Seq<Node>) -> Seq<String>
    decreases s.len(),
{
    if s.len() == 0 {
        Seq::<String>::empty()
    } else if s[0].tombstone {
        live_values(s.drop_first())
    } else {
        seq![s[0].value] + live_values(s.drop_first())
    }
}

/// The head of the list in traversal order.
pub open spec fn spec_head(s: Seq<Node>) -> Option<S4Vector> {
    if s.len() == 0 {
        None
    } else {
        Some(s[0].s4vector)
    }
}

/// Pairwise-distinct identifiers among persisted rows, as the store's
/// primary key guarantees.
pub open spec fn rows_distinct(ops: Seq<Operation>) -> bool {
    forall|i: int, j: int| 0 <= i < j < ops.len() ==> ops[i].s4vector != ops[j].s4vector
}

/// A node rebuilt from a persisted row: same identifier, tombstone and
/// value (empty where the row carries none), with anchors absent.
pub open spec fn node_matches_row(n: Node, op: Operation) -> bool {
    n.s4vector == op.s4vector && n.tombstone == op.tombstone && n.left is None && n.right is None
        && (match op.value {
        Some(v) => n.value == v,
        None => n.value@ == Seq::<char>::empty(),
    })
}

/// A snapshot row taken from a node: the latest-value projection under the
/// node's identifier, with anchors absent.
pub open spec fn row_of_node(op: Operation, n: Node) -> bool {
    op.operation == OperationType::Insert && op.s4vector == n.s4vector && op.tombstone
        == n.tombstone && op.left is None && op.right is None && op.value == Some(n.value)
}

/// Appends an operation to the buffer unless an equal one already waits.
fn buffer_push(buffer: &mut Vec<Operation>, op: Operation)
    ensures
        final(buffer)@ == spec_buffer_push(old(buffer)@, op),
{
    let n = buffer.len();
    let mut i: usize = 0;
    while i < n
        invariant
            i <= n,
            n == buffer@.len(),
            buffer@ == old(buffer)@,
            forall|j: int| 0 <= j < i ==> !op_eq(#[trigger] buffer@[j], op),
        decreases n - i,
    {
        if ops_equal(&buffer[i], &op) {
            proof {
                assert(buffer_has(buffer@, op));
            }
            return ;
        }
        i = i + 1;
    }
    proof {
        assert(!buffer_has(buffer@, op));
    }
    buffer.push(op);
}

// ---------------------------------------------------------------------------
// Laws.
// ---------------------------------------------------------------------------
/// Two states of equal length whose nodes agree pointwise on the tombstone,
/// and on the value wherever the node is live, read identically.
proof fn lemma_live_values_pointwise(a: Seq<Node>, b: Seq<Node>)
    requires
        a.len() == b.len(),
        forall|i: int|
            0 <= i < a.len() ==> (#[trigger] b[i]).tombstone == a[i].tombstone && (!a[i].tombstone
                ==> b[i].value == a[i].value),
    ensures
        live_values(a) == live_values(b),
    decreases a.len(),
{
    if a.len() > 0 {
        let at = a.drop_first();
        let bt = b.drop_first();
        assert(b[0].tombstone == a[0].tombstone && (!a[0].tombstone ==> b[0].value == a[0].value));
        assert forall|i: int|
            0 <= i < at.len() implies (#[trigger] bt[i]).tombstone == at[i].tombstone && (
        !at[i].tombstone ==> bt[i].value == at[i].value) by {
            assert(at[i] == a[i + 1]);
            assert(bt[i] == b[i + 1]);
        }
        lemma_live_values_pointwise(at, bt);
    }
}

/// Snapshot round-trip: for any state, rows taken by `snapshot` in traversal
/// order and loaded by `create_from` rebuild a state whose visible document
/// is identical to the one that was persisted.
pub proof fn lemma_snapshot_roundtrip(nodes: Seq<Node>, rows: Seq<Operation>, loaded: Seq<Node>)
    requires
        rows.len() == nodes.len(),
        loaded.len() == rows.len(),
        forall|i: int| 0 <= i < rows.len() ==> row_of_node(#[trigger] rows[i], nodes[i]),
        forall|i: int| 0 <= i < loaded.len() ==> node_matches_row(#[trigger] loaded[i], rows[i]),
    ensures
        live_values(loaded) == live_values(nodes),
{
    assert forall|i: int|
        0 <= i < nodes.len() implies (#[trigger] loaded[i]).value == nodes[i].value
        && loaded[i].tombstone == nodes[i].tombstone by {
        assert(row_of_node(rows[i], nodes[i]));
        assert(node_matches_row(loaded[i], rows[i]));
    }
    lemma_live_values_pointwise(nodes, loaded);
}

/// Whether one delivery of `op` applies immediately, rather than being
/// ignored as a duplicate or deferred for a missing dependency.
pub open spec fn remote_applies(s: Seq<Node>, op: Operation) -> bool {
    match op.operation {
        OperationType::Insert => op.value is Some && !has_id(s, op.s4vector) && (match op.left {
            Some(l) => has_id(s, l),
            None => true,
        }),
        OperationType::Update => op.value is Some && has_id(s, op.s4vector),
        OperationType::Delete => has_id(s, op.s4vector),
    }
}

/// Identical identifier maps give identical first occurrences.
proof fn lemma_find_id_same_ids(s: Seq<Node>, t: Seq<Node>, id: S4Vector)
    requires
        s.len() == t.len(),
        forall|k: int| 0 <= k < s.len() ==> (#[trigger] t[k]).s4vector == s[k].s4vector,
    ensures
        find_id(t, id) == find_id(s, id),
{
    lemma_find_id_props(s, id);
    lemma_find_id_is(t, id, find_id(s, id));
}

/// Idempotence of remote delivery: a second delivery of the same operation
/// leaves the state unchanged, whenever the first delivery was ignored or
/// deferred, or it applied with no operations pending. By induction, such an
/// operation delivered any number of times leaves the state it left after
/// its first delivery.
pub proof fn lemma_remote_apply_idempotent(s: Seq<Node>, pend: Seq<Operation>, op: Operation)
    requires
        ids_distinct(s),
        anchors_precede(s),
        !remote_applies(s, op) || pend.len() == 0,
    ensures
        spec_remote_step(spec_remote_step(s, pend, op).0, spec_remote_step(s, pend, op).1, op)
            == spec_remote_step(s, pend, op),
{
    let s4 = op.s4vector;
    match op.operation {
        OperationType::Insert => {
            match op.value {
                Some(v) => {
                    if has_id(s, s4) {
                    } else {
                        match op.left {
                            Some(l) => {
                                if has_id(s, l) {
                                    // applied with nothing pending
                                    let n = Node {
                                        value: v,
                                        s4vector: s4,
                                        tombstone: false,
                                        left: op.left,
                                        right: op.right,
                                    };
                                    lemma_insert_preserves_wf(s, n);
                                    let ins = spec_insert_node(s, n);
                                    assert(spec_sweep(ins, pend) == (
                                        ins,
                                        Seq::<Operation>::empty(),
                                    ));
                                } else {
                                    lemma_buffer_redelivery(
                                        pend,
                                        insert_op_record(s4, v, op.left, op.right),
                                    );
                                }
                            },
                            None => {
                                let n = Node {
                                    value: v,
                                    s4vector: s4,
                                    tombstone: false,
                                    left: op.left,
                                    right: op.right,
                                };
                                lemma_insert_preserves_wf(s, n);
                                let ins = spec_insert_node(s, n);
                                assert(spec_sweep(ins, pend) == (ins, Seq::<Operation>::empty()));
                            },
                        }
                    }
                },
                None => {},
            }
        },
        OperationType::Update => {
            match op.value {
                Some(v) => {
                    if has_id(s, s4) {
                        lemma_find_id_props(s, s4);
                        let i = find_id(s, s4);
                        let t = spec_set_value(s, s4, v);
                        lemma_set_value_preserves_wf(s, s4, v);
                        assert(spec_sweep(t, pend) == (t, Seq::<Operation>::empty()));
                        lemma_find_id_same_ids(s, t, s4);
                        assert(has_id(t, s4) && find_id(t, s4) == i);
                        if !s[i].tombstone {
                            assert(t[i].tombstone == s[i].tombstone);
                            let again = spec_set_value(t, s4, v);
                            assert(again =~= t);
                            assert(spec_sweep(t, Seq::<Operation>::empty()) == (
                                t,
                                Seq::<Operation>::empty(),
                            ));
                        }
                    } else {
                        lemma_buffer_redelivery(pend, update_op_record(s4, v));
                    }
                },
                None => {},
            }
        },
        OperationType::Delete => {
            if has_id(s, s4) {
                lemma_find_id_props(s, s4);
                let i = find_id(s, s4);
                let t = spec_set_tombstone(s, s4);
                lemma_set_tombstone_preserves_wf(s, s4);
                assert(spec_sweep(t, pend) == (t, Seq::<Operation>::empty()));
                lemma_find_id_same_ids(s, t, s4);
                assert(has_id(t, s4) && find_id(t, s4) == i);
                assert(t[i].tombstone);
                let again = spec_set_tombstone(t, s4);
                assert(again =~= t);
                assert(spec_sweep(t, Seq::<Operation>::empty()) == (t, Seq::<Operation>::empty()));
            } else {
                lemma_buffer_redelivery(pend, delete_op_record(s4));
            }
        },
    }
}

/// The state after `n` deliveries of the same remote operation.
pub open spec fn spec_remote_step_n(
    s: Seq<Node>,
    pend: Seq<Operation>,
    op: Operation,
    n: nat,
) -> (Seq<Node>, Seq<Operation>)
    decreases n,
{
    if n == 0 {
        (s, pend)
    } else {
        let prev = spec_remote_step_n(s, pend, op, (n - 1) as nat);
        spec_remote_step(prev.0, prev.1, op)
    }
}

/// Idempotence for any number of deliveries: under the hypotheses of
/// `lemma_remote_apply_idempotent`, delivering a remote operation `n >= 1`
/// times yields the state of delivering it once.
pub proof fn lemma_remote_apply_idempotent_n(
    s: Seq<Node>,
    pend: Seq<Operation>,
    op: Operation,
    n: nat,
)
    requires
        ids_distinct(s),
        anchors_precede(s),
        !remote_applies(s, op) || pend.len() == 0,
        n >= 1,
    ensures
        spec_remote_step_n(s, pend, op, n) == spec_remote_step(s, pend, op),
    decreases n,
{
    if n == 1 {
        assert(spec_remote_step_n(s, pend, op, 0) == (s, pend));
        assert(spec_remote_step_n(s, pend, op, 1) == spec_remote_step(s, pend, op));
    } else {
        lemma_remote_apply_idempotent_n(s, pend, op, (n - 1) as nat);
        lemma_remote_apply_idempotent(s, pend, op);
        assert(spec_remote_step_n(s, pend, op, n) == spec_remote_step(
            spec_remote_step(s, pend, op).0,
            spec_remote_step(s, pend, op).1,
            op,
        ));
    }
}

/// Buffering the same record twice buffers it once: the duplicate check sees
/// the first copy.
proof fn lemma_buffer_redelivery(pend: Seq<Operation>, rec: Operation)
    ensures
        spec_buffer_push(spec_buffer_push(pend, rec), rec) == spec_buffer_push(pend, rec),
{
    if !buffer_has(pend, rec) {
        let p1 = pend.push(rec);
        assert(p1[pend.len() as int] == rec);
        assert(op_eq(p1[pend.len() as int], rec));
        assert(buffer_has(p1, rec));
    }
}

/// An inserted sequence carries an identifier exactly where the old one did,
/// or on the new node.
proof fn lemma_has_id_insert(s: Seq<Node>, n: Node, p: int, id: S4Vector)
    requires
        0 <= p <= s.len(),
    ensures
        has_id(s.insert(p, n), id) <==> (has_id(s, id) || n.s4vector == id),
{
    let t = s.insert(p, n);
    s.insert_ensures(p, n);
    lemma_find_id_props(s, id);
    lemma_find_id_props(t, id);
    if has_id(t, id) {
        let f = find_id(t, id);
        if !has_id(s, id) && n.s4vector != id {
            if f < p {
                assert(t[f] == s[f]);
            } else if f == p {
            } else {
                assert(t[f] == s[f - 1]);
            }
            assert(false);
        }
    } else {
        if has_id(s, id) {
            let f = find_id(s, id);
            if f < p {
                assert(t[f] == s[f]);
            } else {
                assert(t[f + 1] == s[f]);
            }
            assert(false);
        }
        if n.s4vector == id {
            assert(t[p] == n);
            assert(false);
        }
    }
}

/// Sequences with the same identifiers in the same positions have the same
/// landing slots.
proof fn lemma_slot_same_ids(s: Seq<Node>, t: Seq<Node>, from: int, id: S4Vector)
    requires
        0 <= from <= s.len(),
        t.len() == s.len(),
        forall|k: int| 0 <= k < s.len() ==> (#[trigger] t[k]).s4vector == s[k].s4vector,
    ensures
        slot_from(t, from, id) == slot_from(s, from, id),
{
    lemma_slot_props(s, from, id);
    lemma_slot_is(t, from, id, slot_from(s, from, id));
}

/// Where the first occurrence of `l` moves when a node is spliced in at
/// `p`: it keeps its index when it lay before `p`, and shifts by one place
/// otherwise.
proof fn lemma_find_after_insert(s: Seq<Node>, n: Node, p: int, l: S4Vector)
    requires
        0 <= p <= s.len(),
        has_id(s, l),
        n.s4vector != l,
    ensures
        find_id(s.insert(p, n), l) == if find_id(s, l) < p {
            find_id(s, l)
        } else {
            find_id(s, l) + 1
        },
{
    let f = find_id(s, l);
    lemma_find_id_props(s, l);
    let t = s.insert(p, n);
    s.insert_ensures(p, n);
    if f < p {
        assert(t[f] == s[f]);
        assert forall|j: int| 0 <= j < f implies (#[trigger] t[j]).s4vector != l by {
            assert(t[j] == s[j]);
        }
        lemma_find_id_is(t, l, f);
    } else {
        assert(t[f + 1] == s[f]);
        assert forall|j: int| 0 <= j < f + 1 implies (#[trigger] t[j]).s4vector != l by {
            if j < p {
                assert(t[j] == s[j]);
            } else if j == p {
                assert(t[j] == n);
            } else {
                assert(t[j] == s[j - 1]);
            }
        }
        lemma_find_id_is(t, l, f + 1);
    }
}

/// Two splices pass each other: inserting at `p1` and then at an earlier or
/// equal position `p2` builds the sequence of inserting at `p2` first and at
/// `p1 + 1` after.
proof fn lemma_insert_insert_swap(s: Seq<Node>, n1: Node, p1: int, n2: Node, p2: int)
    requires
        0 <= p2 <= p1 <= s.len(),
    ensures
        s.insert(p1, n1).insert(p2, n2) == s.insert(p2, n2).insert(p1 + 1, n1),
{
    let lhs = s.insert(p1, n1).insert(p2, n2);
    let rhs = s.insert(p2, n2).insert(p1 + 1, n1);
    s.insert_ensures(p1, n1);
    s.insert_ensures(p2, n2);
    s.insert(p1, n1).insert_ensures(p2, n2);
    s.insert(p2, n2).insert_ensures(p1 + 1, n1);
    assert(lhs.len() == rhs.len());
    assert forall|k: int| 0 <= k < lhs.len() implies lhs[k] == rhs[k] by {
        if k < p2 {
            assert(lhs[k] == s.insert(p1, n1)[k]);
            assert(lhs[k] == s[k]);
            assert(rhs[k] == s.insert(p2, n2)[k]);
        } else if k == p2 {
            assert(lhs[k] == n2);
            assert(rhs[k] == s.insert(p2, n2)[k]);
            assert(rhs[k] == n2);
        } else if k <= p1 {
            assert(lhs[k] == s.insert(p1, n1)[k - 1]);
            assert(lhs[k] == s[k - 1]);
            assert(rhs[k] == s.insert(p2, n2)[k]);
            assert(rhs[k] == s[k - 1]);
        } else if k == p1 + 1 {
            assert(lhs[k] == s.insert(p1, n1)[k - 1]);
            assert(lhs[k] == n1);
            assert(rhs[k] == n1);
        } else {
            assert(lhs[k] == s.insert(p1, n1)[k - 1]);
            assert(lhs[k] == s[k - 2]);
            assert(rhs[k] == s.insert(p2, n2)[k - 1]);
            assert(rhs[k] == s[k - 2]);
        }
    }
    assert(lhs =~= rhs);
}

/// Convergence of two concurrent inserts: two inserts whose anchors are
/// present and whose identifiers are fresh and distinct settle into the same
/// sequence whichever of the two arrives first. Together with the commuting
/// of inserts, deletes and updates of distinct targets, this is what lets
/// replicas that deliver the same operations in different orders read the
/// same document.
pub proof fn lemma_concurrent_inserts_commute(s: Seq<Node>, a: Node, b: Node)
    requires
        (a.left matches Some(l) ==> has_id(s, l)),
        (b.left matches Some(l) ==> has_id(s, l)),
        a.s4vector != b.s4vector,
        !has_id(s, a.s4vector),
        !has_id(s, b.s4vector),
    ensures
        spec_insert_node(spec_insert_node(s, a), b) == spec_insert_node(spec_insert_node(s, b), a),
{
    crate::s4vector::lemma_s4_order_total(a.s4vector, b.s4vector);
    if s4_lt(b.s4vector, a.s4vector) {
        lemma_concurrent_inserts_commute_wlog(s, a, b);
    } else {
        lemma_concurrent_inserts_commute_wlog(s, b, a);
    }
}

/// The ordered case of `lemma_concurrent_inserts_commute`: `b` precedes `a`
/// in the total order.
proof fn lemma_concurrent_inserts_commute_wlog(s: Seq<Node>, a: Node, b: Node)
    requires
        (a.left matches Some(l) ==> has_id(s, l)),
        (b.left matches Some(l) ==> has_id(s, l)),
        s4_lt(b.s4vector, a.s4vector),
        !has_id(s, a.s4vector),
        !has_id(s, b.s4vector),
    ensures
        spec_insert_node(spec_insert_node(s, a), b) == spec_insert_node(spec_insert_node(s, b), a),
{
    let x = a.s4vector;
    let y = b.s4vector;
    let sa = insert_start(s, a.left);
    let sb = insert_start(s, b.left);
    let pa = insert_pos(s, a);
    let pb = insert_pos(s, b);
    lemma_insert_pos_bounds(s, a);
    lemma_insert_pos_bounds(s, b);
    lemma_slot_props(s, sa, x);
    lemma_slot_props(s, sb, y);
    lemma_find_id_props(s, x);
    lemma_find_id_props(s, y);
    let t = spec_insert_node(s, a);
    let u = spec_insert_node(s, b);
    assert(t == s.insert(pa, a));
    assert(u == s.insert(pb, b));
    s.insert_ensures(pa, a);
    s.insert_ensures(pb, b);

    // The scan starts after the splices: anchors keep or shift their index.
    match b.left {
        Some(l) => {
            lemma_find_id_props(s, l);
            assert(a.s4vector != l);
            lemma_find_after_insert(s, a, pa, l);
        },
        None => {},
    }
    match a.left {
        Some(l) => {
            lemma_find_id_props(s, l);
            assert(b.s4vector != l);
            lemma_find_after_insert(s, b, pb, l);
        },
        None => {},
    }

    if pa < pb {
        // In `t`, `b` lands one place later; in `u`, `a` lands where it did.
        let sbt = insert_start(t, b.left);
        assert(sbt == if sb <= pa {
            sb
        } else {
            sb + 1
        });
        assert forall|j: int| sbt <= j < pb + 1 implies s4_lt(y, (#[trigger] t[j]).s4vector) by {
            if j < pa {
                assert(t[j] == s[j]);
                assert(sb <= j < pb);
            } else if j == pa {
                assert(t[j] == a);
            } else {
                assert(t[j] == s[j - 1]);
                assert(sb <= j - 1 < pb);
            }
        }
        if pb + 1 < t.len() {
            assert(t[pb + 1] == s[pb]);
            assert(!s4_lt(y, t[pb + 1].s4vector));
        }
        lemma_slot_is(t, sbt, y, pb + 1);
        assert(spec_insert_node(t, b) == t.insert(pb + 1, b));

        assert(insert_start(u, a.left) == sa);
        assert forall|j: int| sa <= j < pa implies s4_lt(x, (#[trigger] u[j]).s4vector) by {
            assert(u[j] == s[j]);
        }
        assert(u[pa] == s[pa]);
        assert(!s4_lt(x, u[pa].s4vector));
        lemma_slot_is(u, sa, x, pa);
        assert(spec_insert_node(u, a) == u.insert(pa, a));

        lemma_insert_insert_swap(s, b, pb, a, pa);
    } else if pa == pb {
        let p = pa;
        // In `t`, `b` scans past `a` and lands right after it; in `u`, `a`
        // stops at `b` and lands right before it.
        assert(insert_start(t, b.left) == sb);
        assert forall|j: int| sb <= j < p + 1 implies s4_lt(y, (#[trigger] t[j]).s4vector) by {
            if j < p {
                assert(t[j] == s[j]);
            } else {
                assert(t[j] == a);
            }
        }
        if p + 1 < t.len() {
            assert(t[p + 1] == s[p]);
            assert(!s4_lt(y, t[p + 1].s4vector));
        }
        lemma_slot_is(t, sb, y, p + 1);
        assert(spec_insert_node(t, b) == t.insert(p + 1, b));

        assert(insert_start(u, a.left) == sa);
        assert forall|j: int| sa <= j < p implies s4_lt(x, (#[trigger] u[j]).s4vector) by {
            assert(u[j] == s[j]);
        }
        assert(u[p] == b);
        assert(!s4_lt(x, u[p].s4vector));
        lemma_slot_is(u, sa, x, p);
        assert(spec_insert_node(u, a) == u.insert(p, a));

        lemma_insert_insert_swap(s, b, p, a, p);
    } else {
        // `b` lands strictly before `a`'s scan start: were it inside the
        // scanned region, its stop element would be both above `a`'s
        // identifier and at most `b`'s, against the total order.
        if sa <= pb {
            assert(s4_lt(x, s[pb].s4vector));
            assert(!s4_lt(y, s[pb].s4vector));
            crate::s4vector::lemma_s4_order_transitive(y, x, s[pb].s4vector);
            assert(false);
        }
        assert(pb < sa);
        assert(insert_start(t, b.left) == sb);
        assert forall|j: int| sb <= j < pb implies s4_lt(y, (#[trigger] t[j]).s4vector) by {
            assert(t[j] == s[j]);
        }
        assert(t[pb] == s[pb]);
        assert(!s4_lt(y, t[pb].s4vector));
        lemma_slot_is(t, sb, y, pb);
        assert(spec_insert_node(t, b) == t.insert(pb, b));

        let sau = insert_start(u, a.left);
        assert(sau == sa + 1);
        assert forall|j: int| sa + 1 <= j < pa + 1 implies s4_lt(x, (#[trigger] u[j]).s4vector) by {
            assert(u[j] == s[j - 1]);
            assert(sa <= j - 1 < pa);
        }
        if pa + 1 < u.len() {
            assert(u[pa + 1] == s[pa]);
            assert(!s4_lt(x, u[pa + 1].s4vector));
        }
        lemma_slot_is(u, sau, x, pa + 1);
        assert(spec_insert_node(u, a) == u.insert(pa + 1, a));

        lemma_insert_insert_swap(s, a, pa, b, pb);
    }
}

/// An insert and a pointwise replacement at one position pass each other:
/// inserting at `p` and replacing the node at `i` land on the same sequence
/// in either order.
proof fn lemma_insert_update_swap(s: Seq<Node>, n: Node, p: int, i: int, m: Node)
    requires
        0 <= p <= s.len(),
        0 <= i < s.len(),
    ensures
        ({
            let ii = if i < p {
                i
            } else {
                i + 1
            };
            s.update(i, m).insert(p, n) == s.insert(p, n).update(ii, m)
        }),
{
    let ii = if i < p {
        i
    } else {
        i + 1
    };
    let a = s.update(i, m).insert(p, n);
    let b = s.insert(p, n).update(ii, m);
    s.insert_ensures(p, n);
    s.update(i, m).insert_ensures(p, n);
    assert(a.len() == b.len());
    assert forall|k: int| 0 <= k < a.len() implies a[k] == b[k] by {
        if k == p {
            assert(a[k] == n);
            assert(b[k] == n);
        } else if k < p {
            assert(a[k] == s.update(i, m)[k]);
            if k == ii {
                assert(a[k] == m);
                assert(b[k] == m);
            } else {
                assert(a[k] == s[k]);
                assert(b[k] == s.insert(p, n)[k]);
            }
        } else {
            assert(a[k] == s.update(i, m)[k - 1]);
            if k == ii {
                assert(a[k] == m);
                assert(b[k] == m);
            } else {
                assert(k - 1 != i);
                assert(a[k] == s[k - 1]);
                assert(b[k] == s.insert(p, n)[k]);
            }
        }
    }
    assert(a =~= b);
}

/// The landing position of `n` is the same in two sequences that carry the
/// same identifiers in the same positions.
proof fn lemma_insert_pos_same_ids(s: Seq<Node>, t: Seq<Node>, n: Node)
    requires
        t.len() == s.len(),
        forall|k: int| 0 <= k < s.len() ==> (#[trigger] t[k]).s4vector == s[k].s4vector,
        (n.left matches Some(l) ==> has_id(s, l)),
    ensures
        insert_pos(t, n) == insert_pos(s, n),
{
    match n.left {
        Some(l) => {
            lemma_find_id_props(s, l);
            lemma_find_id_same_ids(s, t, l);
            lemma_slot_same_ids(s, t, find_id(s, l) + 1, n.s4vector);
        },
        None => {
            lemma_slot_same_ids(s, t, 0, n.s4vector);
        },
    }
}

/// The fields of `spec_set_tombstone` pointwise: identifiers keep their
/// positions; only the target's tombstone is set.
proof fn lemma_set_tombstone_pointwise(s: Seq<Node>, id: S4Vector)
    ensures
        spec_set_tombstone(s, id).len() == s.len(),
        forall|k: int|
            0 <= k < s.len() ==> (#[trigger] spec_set_tombstone(s, id)[k]).s4vector
                == s[k].s4vector,
{
    lemma_find_id_props(s, id);
}

/// The fields of `spec_set_value` pointwise: identifiers keep positions.
proof fn lemma_set_value_pointwise(s: Seq<Node>, id: S4Vector, v: String)
    ensures
        spec_set_value(s, id, v).len() == s.len(),
        forall|k: int|
            0 <= k < s.len() ==> (#[trigger] spec_set_value(s, id, v)[k]).s4vector
                == s[k].s4vector,
{
    lemma_find_id_props(s, id);
}

/// Convergence of an insert with a concurrent delete of another node: the
/// two operations commute exactly, whichever arrives first.
pub proof fn lemma_insert_commutes_with_delete(s: Seq<Node>, n: Node, id: S4Vector)
    requires
        !has_id(s, n.s4vector),
        (n.left matches Some(l) ==> has_id(s, l)),
        n.s4vector != id,
    ensures
        spec_set_tombstone(spec_insert_node(s, n), id) == spec_insert_node(
            spec_set_tombstone(s, id),
            n,
        ),
{
    let p = insert_pos(s, n);
    lemma_insert_pos_bounds(s, n);
    let t = spec_insert_node(s, n);
    s.insert_ensures(p, n);
    lemma_has_id_insert(s, n, p, id);
    if !has_id(s, id) {
        assert(spec_set_tombstone(t, id) == t);
        assert(spec_set_tombstone(s, id) == s);
    } else {
        let i = find_id(s, id);
        lemma_find_id_props(s, id);
        let m = Node {
            value: s[i].value,
            s4vector: s[i].s4vector,
            tombstone: true,
            left: s[i].left,
            right: s[i].right,
        };
        let s2 = spec_set_tombstone(s, id);
        assert(s2 == s.update(i, m));
        assert forall|k: int| 0 <= k < s.len() implies (#[trigger] s2[k]).s4vector
            == s[k].s4vector by {}
        lemma_insert_pos_same_ids(s, s2, n);
        let ii = if i < p {
            i
        } else {
            i + 1
        };
        assert(t[ii] == s[i]);
        assert forall|j: int| 0 <= j < ii implies (#[trigger] t[j]).s4vector != id by {
            if j < p {
                if j != i {
                    assert(t[j] == s[j]);
                } else {
                    assert(ii <= i);
                    assert(false);
                }
            } else if j == p {
                assert(t[j] == n);
            } else {
                assert(t[j] == s[j - 1]);
                assert(j - 1 < i);
            }
        }
        lemma_find_id_is(t, id, ii);
        let mt = Node {
            value: t[ii].value,
            s4vector: t[ii].s4vector,
            tombstone: true,
            left: t[ii].left,
            right: t[ii].right,
        };
        assert(mt == m);
        lemma_insert_update_swap(s, n, p, i, m);
        assert(spec_set_tombstone(t, id) == t.update(ii, m));
        assert(spec_insert_node(s2, n) == s2.insert(p, n));
    }
}

/// Convergence of an insert with a concurrent update of another node: the
/// two operations commute exactly, whichever arrives first.
pub proof fn lemma_insert_commutes_with_update(s: Seq<Node>, n: Node, id: S4Vector, v: String)
    requires
        !has_id(s, n.s4vector),
        (n.left matches Some(l) ==> has_id(s, l)),
        n.s4vector != id,
    ensures
        spec_set_value(spec_insert_node(s, n), id, v) == spec_insert_node(
            spec_set_value(s, id, v),
            n,
        ),
{
    let p = insert_pos(s, n);
    lemma_insert_pos_bounds(s, n);
    let t = spec_insert_node(s, n);
    s.insert_ensures(p, n);
    lemma_has_id_insert(s, n, p, id);
    if !has_id(s, id) {
        assert(spec_set_value(t, id, v) == t);
        assert(spec_set_value(s, id, v) == s);
    } else {
        let i = find_id(s, id);
        lemma_find_id_props(s, id);
        let ii = if i < p {
            i
        } else {
            i + 1
        };
        assert(t[ii] == s[i]);
        assert forall|j: int| 0 <= j < ii implies (#[trigger] t[j]).s4vector != id by {
            if j < p {
                if j != i {
                    assert(t[j] == s[j]);
                } else {
                    assert(ii <= i);
                    assert(false);
                }
            } else if j == p {
                assert(t[j] == n);
            } else {
                assert(t[j] == s[j - 1]);
                assert(j - 1 < i);
            }
        }
        lemma_find_id_is(t, id, ii);
        if s[i].tombstone {
            assert(spec_set_value(t, id, v) == t);
            assert(spec_set_value(s, id, v) == s);
        } else {
            let m = Node {
                value: v,
                s4vector: s[i].s4vector,
                tombstone: false,
                left: s[i].left,
                right: s[i].right,
            };
            let s2 = spec_set_value(s, id, v);
            assert(s2 == s.update(i, m));
            assert forall|k: int| 0 <= k < s.len() implies (#[trigger] s2[k]).s4vector
                == s[k].s4vector by {}
            lemma_insert_pos_same_ids(s, s2, n);
            let mt = Node {
                value: v,
                s4vector: t[ii].s4vector,
                tombstone: false,
                left: t[ii].left,
                right: t[ii].right,
            };
            assert(mt == m);
            lemma_insert_update_swap(s, n, p, i, m);
            assert(spec_set_value(t, id, v) == t.update(ii, m));
            assert(spec_insert_node(s2, n) == s2.insert(p, n));
        }
    }
}

/// Convergence of two concurrent deletes: tombstoning commutes exactly, on
/// the same target and on distinct ones.
pub proof fn lemma_deletes_commute(s: Seq<Node>, id1: S4Vector, id2: S4Vector)
    ensures
        spec_set_tombstone(spec_set_tombstone(s, id1), id2) == spec_set_tombstone(
            spec_set_tombstone(s, id2),
            id1,
        ),
{
    lemma_find_id_props(s, id1);
    lemma_find_id_props(s, id2);
    if !has_id(s, id1) {
        let u = spec_set_tombstone(s, id2);
        lemma_set_tombstone_pointwise(s, id2);
        lemma_find_id_same_ids(s, u, id1);
        assert(spec_set_tombstone(u, id1) == u);
    } else if !has_id(s, id2) {
        let u = spec_set_tombstone(s, id1);
        lemma_set_tombstone_pointwise(s, id1);
        lemma_find_id_same_ids(s, u, id2);
        assert(spec_set_tombstone(u, id2) == u);
    } else {
        let i = find_id(s, id1);
        let j = find_id(s, id2);
        let m1 = Node {
            value: s[i].value,
            s4vector: s[i].s4vector,
            tombstone: true,
            left: s[i].left,
            right: s[i].right,
        };
        let m2 = Node {
            value: s[j].value,
            s4vector: s[j].s4vector,
            tombstone: true,
            left: s[j].left,
            right: s[j].right,
        };
        let u1 = s.update(i, m1);
        let u2 = s.update(j, m2);
        lemma_set_tombstone_pointwise(s, id1);
        lemma_set_tombstone_pointwise(s, id2);
        lemma_find_id_same_ids(s, u1, id2);
        lemma_find_id_same_ids(s, u2, id1);
        if i == j {
            assert(id1 == id2);
            assert(u1[i].tombstone);
            assert(spec_set_tombstone(u1, id2) =~= u1.update(
                i,
                Node {
                    value: u1[i].value,
                    s4vector: u1[i].s4vector,
                    tombstone: true,
                    left: u1[i].left,
                    right: u1[i].right,
                },
            ));
            assert(spec_set_tombstone(u1, id2) =~= u1);
            assert(spec_set_tombstone(u2, id1) =~= u2);
            assert(u1 =~= u2);
        } else {
            assert(u1[j] == s[j]);
            assert(u2[i] == s[i]);
            assert(spec_set_tombstone(u1, id2) == u1.update(j, m2));
            assert(spec_set_tombstone(u2, id1) == u2.update(i, m1));
            assert(u1.update(j, m2) =~= u2.update(i, m1));
        }
    }
}

/// Convergence of two concurrent updates of distinct nodes: the two value
/// replacements commute exactly. (Two updates of the same node do not: the
/// arrival order picks the surviving value.)
pub proof fn lemma_updates_commute(
    s: Seq<Node>,
    id1: S4Vector,
    v1: String,
    id2: S4Vector,
    v2: String,
)
    requires
        id1 != id2,
    ensures
        spec_set_value(spec_set_value(s, id1, v1), id2, v2) == spec_set_value(
            spec_set_value(s, id2, v2),
            id1,
            v1,
        ),
{
    lemma_find_id_props(s, id1);
    lemma_find_id_props(s, id2);
    let a = spec_set_value(s, id1, v1);
    let b = spec_set_value(s, id2, v2);
    lemma_set_value_pointwise(s, id1, v1);
    lemma_set_value_pointwise(s, id2, v2);
    lemma_find_id_same_ids(s, a, id2);
    lemma_find_id_same_ids(s, b, id1);
    if !has_id(s, id1) {
        assert(spec_set_value(b, id1, v1) == b);
        assert(spec_set_value(a, id2, v2) == spec_set_value(s, id2, v2));
    } else if !has_id(s, id2) {
        assert(spec_set_value(a, id2, v2) == a);
        assert(spec_set_value(b, id1, v1) == spec_set_value(s, id1, v1));
    } else {
        let i = find_id(s, id1);
        let j = find_id(s, id2);
        assert(i != j);
        assert(a[j] == s[j]);
        assert(b[i] == s[i]);
        if s[i].tombstone && s[j].tombstone {
            assert(a == s && b == s);
            assert(spec_set_value(a, id2, v2) == s);
            assert(spec_set_value(b, id1, v1) == s);
        } else if s[i].tombstone {
            assert(a == s);
            let m2 = Node {
                value: v2,
                s4vector: s[j].s4vector,
                tombstone: false,
                left: s[j].left,
                right: s[j].right,
            };
            assert(spec_set_value(a, id2, v2) == s.update(j, m2));
            assert(b == s.update(j, m2));
            assert(b[i].tombstone);
            assert(spec_set_value(b, id1, v1) == b);
        } else if s[j].tombstone {
            assert(b == s);
            let m1 = Node {
                value: v1,
                s4vector: s[i].s4vector,
                tombstone: false,
                left: s[i].left,
                right: s[i].right,
            };
            assert(spec_set_value(b, id1, v1) == s.update(i, m1));
            assert(a == s.update(i, m1));
            assert(a[j].tombstone);
            assert(spec_set_value(a, id2, v2) == a);
        } else {
            let m1 = Node {
                value: v1,
                s4vector: s[i].s4vector,
                tombstone: false,
                left: s[i].left,
                right: s[i].right,
            };
            let m2 = Node {
                value: v2,
                s4vector: s[j].s4vector,
                tombstone: false,
                left: s[j].left,
                right: s[j].right,
            };
            assert(a == s.update(i, m1));
            assert(b == s.update(j, m2));
            assert(!a[j].tombstone);
            assert(!b[i].tombstone);
            assert(spec_set_value(a, id2, v2) == a.update(j, m2));
            assert(spec_set_value(b, id1, v1) == b.update(i, m1));
            assert(a.update(j, m2) =~= b.update(i, m1));
        }
    }
}

/// Convergence of an update with a concurrent delete of a different node:
/// the two operations commute exactly.
pub proof fn lemma_update_delete_distinct_commute(
    s: Seq<Node>,
    idu: S4Vector,
    v: String,
    idd: S4Vector,
)
    requires
        idu != idd,
    ensures
        spec_set_tombstone(spec_set_value(s, idu, v), idd) == spec_set_value(
            spec_set_tombstone(s, idd),
            idu,
            v,
        ),
{
    lemma_find_id_props(s, idu);
    lemma_find_id_props(s, idd);
    let a = spec_set_value(s, idu, v);
    let b = spec_set_tombstone(s, idd);
    lemma_set_value_pointwise(s, idu, v);
    lemma_set_tombstone_pointwise(s, idd);
    lemma_find_id_same_ids(s, a, idd);
    lemma_find_id_same_ids(s, b, idu);
    if !has_id(s, idu) {
        assert(spec_set_value(b, idu, v) == b);
        assert(spec_set_tombstone(a, idd) == spec_set_tombstone(s, idd));
    } else if !has_id(s, idd) {
        assert(spec_set_tombstone(a, idd) == a);
        assert(spec_set_value(b, idu, v) == spec_set_value(s, idu, v));
    } else {
        let i = find_id(s, idu);
        let j = find_id(s, idd);
        assert(i != j);
        assert(a[j] == s[j]);
        assert(b[i] == s[i]);
        let md = Node {
            value: s[j].value,
            s4vector: s[j].s4vector,
            tombstone: true,
            left: s[j].left,
            right: s[j].right,
        };
        if s[i].tombstone {
            assert(a == s);
            assert(spec_set_tombstone(a, idd) == s.update(j, md));
            assert(b == s.update(j, md));
            assert(b[i].tombstone);
            assert(spec_set_value(b, idu, v) == b);
        } else {
            let mu = Node {
                value: v,
                s4vector: s[i].s4vector,
                tombstone: false,
                left: s[i].left,
                right: s[i].right,
            };
            assert(a == s.update(i, mu));
            assert(b == s.update(j, md));
            assert(!b[i].tombstone);
            assert(spec_set_tombstone(a, idd) == a.update(j, md));
            assert(spec_set_value(b, idu, v) == b.update(i, mu));
            assert(a.update(j, md) =~= b.update(i, mu));
        }
    }
}

/// Convergence of an update with a concurrent delete of the same node, at
/// the level of the visible document: whichever arrives first, the node ends
/// tombstoned, and the two final states read identically. (The dead node's
/// stored value may differ, which no read observes.)
pub proof fn lemma_update_delete_same_target_reads_agree(s: Seq<Node>, id: S4Vector, v: String)
    ensures
        live_values(spec_set_value(spec_set_tombstone(s, id), id, v)) == live_values(
            spec_set_tombstone(spec_set_value(s, id, v), id),
        ),
{
    lemma_find_id_props(s, id);
    if !has_id(s, id) {
        let a = spec_set_value(spec_set_tombstone(s, id), id, v);
        let b = spec_set_tombstone(spec_set_value(s, id, v), id);
        assert(a == s);
        assert(b == s);
    } else {
        let i = find_id(s, id);
        let del_first = spec_set_tombstone(s, id);
        lemma_set_tombstone_pointwise(s, id);
        lemma_find_id_same_ids(s, del_first, id);
        assert(del_first[i].tombstone);
        let a = spec_set_value(del_first, id, v);
        assert(a == del_first);
        let upd_first = spec_set_value(s, id, v);
        lemma_set_value_pointwise(s, id, v);
        lemma_find_id_same_ids(s, upd_first, id);
        let b = spec_set_tombstone(upd_first, id);
        assert(a.len() == b.len());
        assert forall|k: int|
            0 <= k < a.len() implies (#[trigger] b[k]).tombstone == a[k].tombstone && (
        !a[k].tombstone ==> b[k].value == a[k].value) by {
            if k != i {
                assert(a[k] == s[k]);
                assert(upd_first[k] == s[k]);
                assert(b[k] == s[k]);
            } else {
                assert(a[k].tombstone);
                assert(b[k].tombstone);
            }
        }
        lemma_live_values_pointwise(a, b);
    }
}

/// The session discipline: every node minted under this replica's session
/// and site carries a sequence number below the local counter.
pub open spec fn local_seqs_bounded(
    s: Seq<Node>,
    session_id: u64,
    site_id: u64,
    counter: u64,
) -> bool {
    forall|i: int|
        0 <= i < s.len() ==> (((#[trigger] s[i]).s4vector.ssn == session_id
            && s[i].s4vector.sid == site_id) ==> s[i].s4vector.seq < counter)
}

/// Under the session discipline the next minted identifier is fresh: its
/// sequence number equals the counter, which no node of this session and
/// site has reached. This discharges the fresh-mint precondition of
/// `local_insert`, and is what the per-`(ssn, sid)` uniqueness of sequence
/// numbers protects.
pub proof fn lemma_fresh_mint(
    s: Seq<Node>,
    session_id: u64,
    site_id: u64,
    counter: u64,
    left: Option<S4Vector>,
    right: Option<S4Vector>,
)
    requires
        local_seqs_bounded(s, session_id, site_id, counter),
    ensures
        !has_id(s, spec_generate(session_id, site_id, counter, left, right)),
{
    let g = spec_generate(session_id, site_id, counter, left, right);
    lemma_find_id_props(s, g);
    if has_id(s, g) {
        let f = find_id(s, g);
        assert(s[f].s4vector == g);
        assert(s[f].s4vector.seq < counter);
        assert(false);
    }
}

/// One delivery that applies with nothing pending is exactly one ready
/// application, and leaves nothing pending.
proof fn lemma_remote_step_ready(s: Seq<Node>, pend: Seq<Operation>, op: Operation)
    requires
        pend.len() == 0,
        remote_applies(s, op),
    ensures
        spec_remote_step(s, pend, op).0 == spec_apply_op(s, op),
        spec_remote_step(s, pend, op).1 == Seq::<Operation>::empty(),
{
    match op.operation {
        OperationType::Insert => {
            let v = op.value->Some_0;
            let n = insert_node_of(op, v);
            assert(spec_sweep(spec_insert_node(s, n), pend) == (
                spec_insert_node(s, n),
                Seq::<Operation>::empty(),
            ));
        },
        OperationType::Update => {
            let v = op.value->Some_0;
            assert(spec_sweep(spec_set_value(s, op.s4vector, v), pend) == (
                spec_set_value(s, op.s4vector, v),
                Seq::<Operation>::empty(),
            ));
        },
        OperationType::Delete => {
            assert(spec_sweep(spec_set_tombstone(s, op.s4vector), pend) == (
                spec_set_tombstone(s, op.s4vector),
                Seq::<Operation>::empty(),
            ));
        },
    }
}

/// Applying one ready operation keeps a concurrent one ready: the other's
/// target or anchors stay present, and its fresh identifier stays fresh.
proof fn lemma_apply_keeps_applies(s: Seq<Node>, opa: Operation, opb: Operation)
    requires
        remote_applies(s, opa),
        remote_applies(s, opb),
        opa.s4vector != opb.s4vector,
    ensures
        remote_applies(spec_apply_op(s, opa), opb),
{
    let t = spec_apply_op(s, opa);
    match opa.operation {
        OperationType::Insert => {
            let v = opa.value->Some_0;
            let n = insert_node_of(opa, v);
            assert(t == spec_insert_node(s, n));
            lemma_insert_pos_bounds(s, n);
            let p = insert_pos(s, n);
            lemma_has_id_insert(s, n, p, opb.s4vector);
            match opb.operation {
                OperationType::Insert => {
                    match opb.left {
                        Some(l) => {
                            lemma_has_id_insert(s, n, p, l);
                        },
                        None => {},
                    }
                },
                OperationType::Update => {},
                OperationType::Delete => {},
            }
        },
        OperationType::Update => {
            let v = opa.value->Some_0;
            assert(t == spec_set_value(s, opa.s4vector, v));
            lemma_set_value_pointwise(s, opa.s4vector, v);
            lemma_find_id_same_ids(s, t, opb.s4vector);
            match opb.operation {
                OperationType::Insert => {
                    match opb.left {
                        Some(l) => {
                            lemma_find_id_same_ids(s, t, l);
                        },
                        None => {},
                    }
                },
                OperationType::Update => {},
                OperationType::Delete => {},
            }
        },
        OperationType::Delete => {
            assert(t == spec_set_tombstone(s, opa.s4vector));
            lemma_set_tombstone_pointwise(s, opa.s4vector);
            lemma_find_id_same_ids(s, t, opb.s4vector);
            match opb.operation {
                OperationType::Insert => {
                    match opb.left {
                        Some(l) => {
                            lemma_find_id_same_ids(s, t, l);
                        },
                        None => {},
                    }
                },
                OperationType::Update => {},
                OperationType::Delete => {},
            }
        },
    }
}

/// Two ready applications on distinct identifiers commute.
proof fn lemma_ready_applications_commute(s: Seq<Node>, op1: Operation, op2: Operation)
    requires
        remote_applies(s, op1),
        remote_applies(s, op2),
        op1.s4vector != op2.s4vector,
    ensures
        spec_apply_op(spec_apply_op(s, op1), op2) == spec_apply_op(spec_apply_op(s, op2), op1),
{
    lemma_apply_keeps_applies(s, op1, op2);
    lemma_apply_keeps_applies(s, op2, op1);
    let s1 = spec_apply_op(s, op1);
    let s2 = spec_apply_op(s, op2);
    match (op1.operation, op2.operation) {
        (OperationType::Insert, OperationType::Insert) => {
            let n1 = insert_node_of(op1, op1.value->Some_0);
            let n2 = insert_node_of(op2, op2.value->Some_0);
            assert(s1 == spec_insert_node(s, n1));
            assert(s2 == spec_insert_node(s, n2));
            assert(spec_apply_op(s1, op2) == spec_insert_node(s1, n2));
            assert(spec_apply_op(s2, op1) == spec_insert_node(s2, n1));
            lemma_concurrent_inserts_commute(s, n1, n2);
        },
        (OperationType::Insert, OperationType::Update) => {
            let n1 = insert_node_of(op1, op1.value->Some_0);
            let v2 = op2.value->Some_0;
            assert(s1 == spec_insert_node(s, n1));
            assert(s2 == spec_set_value(s, op2.s4vector, v2));
            assert(spec_apply_op(s1, op2) == spec_set_value(s1, op2.s4vector, v2));
            assert(spec_apply_op(s2, op1) == spec_insert_node(s2, n1));
            lemma_insert_commutes_with_update(s, n1, op2.s4vector, v2);
        },
        (OperationType::Insert, OperationType::Delete) => {
            let n1 = insert_node_of(op1, op1.value->Some_0);
            assert(s1 == spec_insert_node(s, n1));
            assert(s2 == spec_set_tombstone(s, op2.s4vector));
            assert(spec_apply_op(s1, op2) == spec_set_tombstone(s1, op2.s4vector));
            assert(spec_apply_op(s2, op1) == spec_insert_node(s2, n1));
            lemma_insert_commutes_with_delete(s, n1, op2.s4vector);
        },
        (OperationType::Update, OperationType::Insert) => {
            let v1 = op1.value->Some_0;
            let n2 = insert_node_of(op2, op2.value->Some_0);
            assert(s1 == spec_set_value(s, op1.s4vector, v1));
            assert(s2 == spec_insert_node(s, n2));
            assert(spec_apply_op(s1, op2) == spec_insert_node(s1, n2));
            assert(spec_apply_op(s2, op1) == spec_set_value(s2, op1.s4vector, v1));
            lemma_insert_commutes_with_update(s, n2, op1.s4vector, v1);
        },
        (OperationType::Update, OperationType::Update) => {
            let v1 = op1.value->Some_0;
            let v2 = op2.value->Some_0;
            assert(spec_apply_op(s1, op2) == spec_set_value(s1, op2.s4vector, v2));
            assert(spec_apply_op(s2, op1) == spec_set_value(s2, op1.s4vector, v1));
            lemma_updates_commute(s, op1.s4vector, v1, op2.s4vector, v2);
        },
        (OperationType::Update, OperationType::Delete) => {
            let v1 = op1.value->Some_0;
            assert(spec_apply_op(s1, op2) == spec_set_tombstone(s1, op2.s4vector));
            assert(spec_apply_op(s2, op1) == spec_set_value(s2, op1.s4vector, v1));
            lemma_update_delete_distinct_commute(s, op1.s4vector, v1, op2.s4vector);
        },
        (OperationType::Delete, OperationType::Insert) => {
            let n2 = insert_node_of(op2, op2.value->Some_0);
            assert(s1 == spec_set_tombstone(s, op1.s4vector));
            assert(s2 == spec_insert_node(s, n2));
            assert(spec_apply_op(s1, op2) == spec_insert_node(s1, n2));
            assert(spec_apply_op(s2, op1) == spec_set_tombstone(s2, op1.s4vector));
            lemma_insert_commutes_with_delete(s, n2, op1.s4vector);
        },
        (OperationType::Delete, OperationType::Update) => {
            let v2 = op2.value->Some_0;
            assert(spec_apply_op(s1, op2) == spec_set_value(s1, op2.s4vector, v2));
            assert(spec_apply_op(s2, op1) == spec_set_tombstone(s2, op1.s4vector));
            lemma_update_delete_distinct_commute(s, op2.s4vector, v2, op1.s4vector);
        },
        (OperationType::Delete, OperationType::Delete) => {
            assert(spec_apply_op(s1, op2) == spec_set_tombstone(s1, op2.s4vector));
            assert(spec_apply_op(s2, op1) == spec_set_tombstone(s2, op1.s4vector));
            lemma_deletes_commute(s, op1.s4vector, op2.s4vector);
        },
    }
}

/// Convergence of two concurrent deliveries: with nothing pending, two
/// remote operations that both apply, on distinct identifiers, reach the
/// same state whichever is delivered first.
pub proof fn lemma_remote_steps_commute(
    s: Seq<Node>,
    pend: Seq<Operation>,
    op1: Operation,
    op2: Operation,
)
    requires
        pend.len() == 0,
        remote_applies(s, op1),
        remote_applies(s, op2),
        op1.s4vector != op2.s4vector,
    ensures
        spec_remote_step(
            spec_remote_step(s, pend, op1).0,
            spec_remote_step(s, pend, op1).1,
            op2,
        ) == spec_remote_step(spec_remote_step(s, pend, op2).0, spec_remote_step(s, pend, op2).1, op1),
{
    lemma_remote_step_ready(s, pend, op1);
    lemma_remote_step_ready(s, pend, op2);
    lemma_apply_keeps_applies(s, op1, op2);
    lemma_apply_keeps_applies(s, op2, op1);
    let s1 = spec_apply_op(s, op1);
    let s2 = spec_apply_op(s, op2);
    lemma_remote_step_ready(s1, spec_remote_step(s, pend, op1).1, op2);
    lemma_remote_step_ready(s2, spec_remote_step(s, pend, op2).1, op1);
    lemma_ready_applications_commute(s, op1, op2);
}

// ---------------------------------------------------------------------------
// The RGA document state.
// ---------------------------------------------------------------------------
/// The document state of one replica: the nodes in traversal order, the
/// ordered buffer of deferred operations, the session and site identifiers,
/// and the monotone local sequence counter.
#[derive(Debug)]
pub struct RGA {
    pub nodes: Vec<Node>,
    pub buffer: Vec<Operation>,
    pub session_id: u64,
    pub site_id: u64,
    pub local_sequence: u64,
}

impl RGA {
    /// Well-formedness: identifiers are pairwise distinct and every named
    /// left anchor occurs strictly earlier in traversal order.
    pub open spec fn wf(&self) -> bool {
        ids_distinct(self.nodes@) && anchors_precede(self.nodes@)
    }

    /// A fresh, empty document for the given session and site.
    pub fn new(session_id: u64, site_id: u64) -> (r: RGA)
        ensures
            r.wf(),
            r.nodes@ == Seq::<Node>::empty(),
            r.buffer@ == Seq::<Operation>::empty(),
            r.session_id == session_id,
            r.site_id == site_id,
            r.local_sequence == 0,
    {
        RGA {
            nodes: Vec::new(),
            buffer: Vec::new(),
            session_id,
            site_id,
            local_sequence: 0,
        }
    }

    /// The identifier of the first node in traversal order.
    pub fn head(&self) -> (r: Option<S4Vector>)
        ensures
            r == spec_head(self.nodes@),
    {
        if self.nodes.len() == 0 {
            None
        } else {
            Some(self.nodes[0].s4vector)
        }
    }

    /// Whether a node carrying `id` exists.
    pub fn contains(&self, id: &S4Vector) -> (r: bool)
        ensures
            r == has_id(self.nodes@, *id),
    {
        contains_node(&self.nodes, id)
    }

    /// The node carrying `id`, where one exists.
    pub fn get_node(&self, id: &S4Vector) -> (r: Option<&Node>)
        ensures
            match r {
                Some(n) => has_id(self.nodes@, *id) && *n == self.nodes@[find_id(
                    self.nodes@,
                    *id,
                )],
                None => !has_id(self.nodes@, *id),
            },
    {
        proof {
            lemma_find_id_props(self.nodes@, *id);
        }
        let i = find_node(&self.nodes, id);
        if i < self.nodes.len() {
            Some(&self.nodes[i])
        } else {
            None
        }
    }

    /// The current visible document: the values of the non-tombstoned nodes
    /// in traversal order.
    pub fn read(&self) -> (r: Vec<String>)
        ensures
            r@ == live_values(self.nodes@),
    {
        let s = &self.nodes;
        let n = s.len();
        let mut result: Vec<String> = Vec::new();
        let mut i: usize = 0;
        proof {
            assert(s@.skip(0) =~= s@);
        }
        while i < n
            invariant
                i <= n,
                n == s@.len(),
                live_values(s@) == result@ + live_values(s@.skip(i as int)),
            decreases n - i,
        {
            let ghost result0 = result@;
            let ghost rest = s@.skip(i as int);
            proof {
                assert(rest[0] == s@[i as int]);
                assert(rest.drop_first() =~= s@.skip(i as int + 1));
            }
            if !s[i].tombstone {
                result.push(s[i].value.clone());
                proof {
                    assert(live_values(rest) == seq![rest[0].value] + live_values(
                        rest.drop_first(),
                    ));
                    assert(result@ =~= result0.push(s@[i as int].value));
                    assert(result0 + (seq![rest[0].value] + live_values(rest.drop_first()))
                        =~= result@ + live_values(rest.drop_first()));
                }
            } else {
                proof {
                    assert(live_values(rest) == live_values(rest.drop_first()));
                }
            }
            i = i + 1;
        }
        proof {
            assert(s@.skip(n as int) =~= Seq::<Node>::empty());
            assert(live_values(s@) =~= result@ + Seq::<String>::empty());
            assert(result@ + Seq::<String>::empty() =~= result@);
        }
        result
    }

    /// One in-order pass over the buffer: every deferred operation whose
    /// dependencies have arrived is applied and removed; the rest wait in
    /// their original relative order. A newly buffered operation does not
    /// trigger another pass within the same call.
    pub fn apply_buffered_operations(&mut self)
        requires
            old(self).wf(),
        ensures
            final(self).wf(),
            final(self).nodes@ == spec_sweep(old(self).nodes@, old(self).buffer@).0,
            final(self).buffer@ == spec_sweep(old(self).nodes@, old(self).buffer@).1,
            nodes_preserved(old(self).nodes@, final(self).nodes@),
            final(self).session_id == old(self).session_id,
            final(self).site_id == old(self).site_id,
            final(self).local_sequence == old(self).local_sequence,
    {
        let ghost nodes0 = self.nodes@;
        let ghost pend0 = self.buffer@;
        let ghost ssn0 = self.session_id;
        let ghost sid0 = self.site_id;
        let ghost seq0 = self.local_sequence;
        let mut retained: Vec<Operation> = Vec::new();
        proof {
            lemma_preserved_refl(nodes0);
        }
        while self.buffer.len() > 0
            invariant
                ids_distinct(self.nodes@),
                anchors_precede(self.nodes@),
                spec_sweep(nodes0, pend0).0 == spec_sweep(self.nodes@, self.buffer@).0,
                spec_sweep(nodes0, pend0).1 == retained@ + spec_sweep(self.nodes@, self.buffer@).1,
                nodes_preserved(nodes0, self.nodes@),
                self.session_id == ssn0,
                self.site_id == sid0,
                self.local_sequence == seq0,
            decreases self.buffer@.len(),
        {
            let ghost nodes_i = self.nodes@;
            let ghost pend_i = self.buffer@;
            let ghost retained_i = retained@;
            let op = self.buffer.remove(0);
            let ghost gop = op;
            proof {
                assert(gop == pend_i[0]);
                assert(self.buffer@ =~= pend_i.drop_first());
            }
            let met = deps_met_exec(&self.nodes, &op);
            if met {
                apply_ready_op(&mut self.nodes, op);
                proof {
                    lemma_preserved_trans(nodes0, nodes_i, self.nodes@);
                    assert(spec_sweep(nodes_i, pend_i).0 == spec_sweep(
                        self.nodes@,
                        self.buffer@,
                    ).0);
                    assert(spec_sweep(nodes_i, pend_i).1 == spec_sweep(
                        self.nodes@,
                        self.buffer@,
                    ).1);
                }
            } else {
                retained.push(op);
                proof {
                    let r1 = spec_sweep(nodes_i, pend_i.drop_first()).1;
                    assert(spec_sweep(nodes_i, pend_i).1 == seq![gop] + r1);
                    assert(retained@ =~= retained_i.push(gop));
                    assert(retained_i + (seq![gop] + r1) =~= retained@ + r1);
                }
            }
        }
        proof {
            assert(self.buffer@ =~= Seq::<Operation>::empty());
            assert(spec_sweep(self.nodes@, self.buffer@).0 == self.nodes@);
            assert(spec_sweep(self.nodes@, self.buffer@).1 == Seq::<Operation>::empty());
            assert(retained@ + Seq::<Operation>::empty() =~= retained@);
        }
        self.buffer = retained;
    }

    /// Rebuilds a document from persisted rows given in traversal order, as
    /// recovery hands them over. Each row becomes one node under its own
    /// identifier, tombstone included, with anchors absent; the order of the
    /// rows is the order of the rebuilt list, so it must be the traversal
    /// order of the state that was persisted.
    pub fn create_from(operations: Vec<Operation>, session_id: u64, site_id: u64) -> (r: RGA)
        requires
            rows_distinct(operations@),
            operations@.len() <= u64::MAX,
        ensures
            r.wf(),
            r.session_id == session_id,
            r.site_id == site_id,
            r.local_sequence == operations@.len(),
            r.buffer@ == Seq::<Operation>::empty(),
            r.nodes@.len() == operations@.len(),
            forall|i: int|
                0 <= i < operations@.len() ==> node_matches_row(
                    #[trigger] r.nodes@[i],
                    operations@[i],
                ),
    {
        let ghost ops0 = operations@;
        let mut ops = operations;
        let mut rga = RGA::new(session_id, site_id);
        proof {
            assert(ops@ =~= ops0.skip(0));
        }
        while ops.len() > 0
            invariant
                rga.session_id == session_id,
                rga.site_id == site_id,
                rga.buffer@ == Seq::<Operation>::empty(),
                rga.nodes@.len() + ops@.len() == ops0.len(),
                rga.local_sequence == rga.nodes@.len(),
                ops0.len() <= u64::MAX,
                rows_distinct(ops0),
                ops@ =~= ops0.skip(rga.nodes@.len() as int),
                forall|i: int|
                    0 <= i < rga.nodes@.len() ==> node_matches_row(
                        #[trigger] rga.nodes@[i],
                        ops0[i],
                    ),
                ids_distinct(rga.nodes@),
                anchors_precede(rga.nodes@),
            decreases ops@.len(),
        {
            let ghost k = rga.nodes@.len() as int;
            let ghost nodes_i = rga.nodes@;
            let op = ops.remove(0);
            proof {
                assert(op == ops0.skip(k)[0]);
                assert(op == ops0[k]);
                assert(ops@ =~= ops0.skip(k + 1));
            }
            let value: String = match op.value {
                Some(v) => v,
                None => String::new(),
            };
            let node = Node {
                value,
                s4vector: op.s4vector,
                tombstone: op.tombstone,
                left: None,
                right: None,
            };
            rga.nodes.push(node);
            rga.local_sequence = rga.local_sequence + 1;
            proof {
                assert(rga.nodes@ =~= nodes_i.push(node));
                assert forall|i: int, j: int|
                    0 <= i < j < rga.nodes@.len() implies rga.nodes@[i].s4vector
                    != rga.nodes@[j].s4vector by {
                    if j < k {
                    } else {
                        assert(j == k);
                        assert(rga.nodes@[i].s4vector == ops0[i].s4vector);
                        assert(rga.nodes@[k].s4vector == ops0[k].s4vector);
                    }
                }
                assert forall|i: int| 0 <= i < rga.nodes@.len() implies #[trigger] anchor_ok(
                    rga.nodes@,
                    i,
                ) by {
                    assert(rga.nodes@[i].left is None);
                }
            }
        }
        proof {
            assert(rga.nodes@.len() == ops0.len());
        }
        rga
    }

    /// The latest-value projection of the document, in traversal order: one
    /// row per node, carrying the node's identifier, current value and
    /// tombstone. Feeding these rows back to `create_from` rebuilds a state
    /// with the identical visible document.
    pub fn snapshot(&self) -> (r: Vec<Operation>)
        ensures
            r@.len() == self.nodes@.len(),
            forall|i: int|
                0 <= i < r@.len() ==> row_of_node(#[trigger] r@[i], self.nodes@[i]),
            ids_distinct(self.nodes@) ==> rows_distinct(r@),
    {
        let s = &self.nodes;
        let n = s.len();
        let mut rows: Vec<Operation> = Vec::new();
        let mut i: usize = 0;
        while i < n
            invariant
                i <= n,
                n == s@.len(),
                rows@.len() == i,
                forall|j: int| 0 <= j < i ==> row_of_node(#[trigger] rows@[j], s@[j]),
            decreases n - i,
        {
            let row = Operation {
                operation: OperationType::Insert,
                s4vector: s[i].s4vector,
                value: Some(s[i].value.clone()),
                tombstone: s[i].tombstone,
                left: None,
                right: None,
            };
            rows.push(row);
            i = i + 1;
        }
        rows
    }

    /// Whether a local insert can be accepted: the sequence counter and the
    /// anchors' precedence sums have room, and the identifier it would mint
    /// is fresh.
    pub fn can_local_insert(&self, left: &Option<S4Vector>, right: &Option<S4Vector>) -> (r: bool)
        ensures
            r == (self.local_sequence < u64::MAX && (left matches Some(l) ==> l.sum < u64::MAX)
                && (right matches Some(rr) ==> rr.sum < u64::MAX) && !has_id(
                self.nodes@,
                spec_generate(self.session_id, self.site_id, self.local_sequence, *left, *right),
            )),
    {
        let seq_ok = self.local_sequence < u64::MAX;
        let left_ok = match left {
            Some(l) => l.sum < u64::MAX,
            None => true,
        };
        let right_ok = match right {
            Some(rr) => rr.sum < u64::MAX,
            None => true,
        };
        if !(seq_ok && left_ok && right_ok) {
            return false;
        }
        let left_sum: u64 = match left {
            Some(l) => l.sum,
            None => 0,
        };
        let right_sum: u64 = match right {
            Some(rr) => rr.sum,
            None => 0,
        };
        let base: u64 = if left_sum >= right_sum {
            left_sum
        } else {
            right_sum
        };
        let minted = S4Vector {
            ssn: self.session_id,
            sum: base + 1,
            sid: self.site_id,
            seq: self.local_sequence,
        };
        !contains_node(&self.nodes, &minted)
    }

    /// A local insert: mints a fresh identifier (always advancing the local
    /// sequence counter), and either splices the node at its landing slot
    /// and sweeps the buffer, or — where a named anchor is missing — defers
    /// the operation and signals `DependencyNotMet`.
    pub fn local_insert(
        &mut self,
        value: String,
        left: Option<S4Vector>,
        right: Option<S4Vector>,
        document_id: u128,
    ) -> (r: Result<BroadcastOperation, OperationError>)
        requires
            old(self).wf(),
            old(self).local_sequence < u64::MAX,
            (left matches Some(l) ==> l.sum < u64::MAX),
            (right matches Some(rr) ==> rr.sum < u64::MAX),
            !has_id(
                old(self).nodes@,
                spec_generate(
                    old(self).session_id,
                    old(self).site_id,
                    old(self).local_sequence,
                    left,
                    right,
                ),
            ),
        ensures
            final(self).wf(),
            final(self).session_id == old(self).session_id,
            final(self).site_id == old(self).site_id,
            final(self).local_sequence == old(self).local_sequence + 1,
            nodes_preserved(old(self).nodes@, final(self).nodes@),
            ({
                let s4 = spec_generate(
                    old(self).session_id,
                    old(self).site_id,
                    old(self).local_sequence,
                    left,
                    right,
                );
                if anchors_present(old(self).nodes@, left, right) {
                    let sw = spec_sweep(
                        spec_insert_node(
                            old(self).nodes@,
                            (Node { value, s4vector: s4, tombstone: false, left, right }),
                        ),
                        old(self).buffer@,
                    );
                    final(self).nodes@ == sw.0 && final(self).buffer@ == sw.1 && r
                        == Ok::<BroadcastOperation, OperationError>(
                        BroadcastOperation {
                            operation: OperationType::Insert,
                            document_id,
                            ssn: s4.ssn,
                            sum: s4.sum,
                            sid: s4.sid,
                            seq: s4.seq,
                            value: Some(value),
                            left,
                            right,
                        },
                    )
                } else {
                    final(self).nodes@ == old(self).nodes@ && final(self).buffer@ == old(
                        self,
                    ).buffer@.push(insert_op_record(s4, value, left, right)) && r == Err::<
                        BroadcastOperation,
                        OperationError,
                    >(OperationError::DependencyNotMet)
                }
            }),
    {
        let left_ref = left.as_ref();
        let right_ref = right.as_ref();
        let s4 = S4Vector::generate(
            left_ref,
            right_ref,
            self.session_id,
            self.site_id,
            &mut self.local_sequence,
        );
        proof {
            assert(spec_opt_s4(left_ref) == left);
            assert(spec_opt_s4(right_ref) == right);
        }
        let left_ok = match &left {
            Some(l) => contains_node(&self.nodes, l),
            None => true,
        };
        let right_ok = match &right {
            Some(rr) => contains_node(&self.nodes, rr),
            None => true,
        };
        if !(left_ok && right_ok) {
            self.buffer.push(
                Operation {
                    operation: OperationType::Insert,
                    s4vector: s4,
                    value: Some(value),
                    tombstone: false,
                    left,
                    right,
                },
            );
            return Err(OperationError::DependencyNotMet);
        }
        let desc_value = value.clone();
        let node = Node { value, s4vector: s4, tombstone: false, left, right };
        let ghost inserted = spec_insert_node(old(self).nodes@, node);
        insert_ready_node(&mut self.nodes, node);
        self.apply_buffered_operations();
        proof {
            lemma_preserved_trans(old(self).nodes@, inserted, self.nodes@);
        }
        Ok(
            BroadcastOperation {
                operation: OperationType::Insert,
                document_id,
                ssn: s4.ssn,
                sum: s4.sum,
                sid: s4.sid,
                seq: s4.seq,
                value: Some(desc_value),
                left,
                right,
            },
        )
    }

    /// A local update: replaces the value of the live target and sweeps the
    /// buffer; a missing target defers the operation. The target's tombstone
    /// is never touched, and an update of a tombstoned node changes nothing.
    pub fn local_update(
        &mut self,
        s4vector: S4Vector,
        value: String,
        document_id: u128,
    ) -> (r: Result<BroadcastOperation, OperationError>)
        requires
            old(self).wf(),
        ensures
            final(self).wf(),
            final(self).session_id == old(self).session_id,
            final(self).site_id == old(self).site_id,
            final(self).local_sequence == old(self).local_sequence,
            nodes_preserved(old(self).nodes@, final(self).nodes@),
            ({
                if has_id(old(self).nodes@, s4vector) {
                    let target = old(self).nodes@[find_id(old(self).nodes@, s4vector)];
                    let sw = spec_sweep(
                        spec_set_value(old(self).nodes@, s4vector, value),
                        old(self).buffer@,
                    );
                    final(self).nodes@ == sw.0 && final(self).buffer@ == sw.1 && r
                        == Ok::<BroadcastOperation, OperationError>(
                        BroadcastOperation {
                            operation: OperationType::Update,
                            document_id,
                            ssn: s4vector.ssn,
                            sum: s4vector.sum,
                            sid: s4vector.sid,
                            seq: s4vector.seq,
                            value: Some(if target.tombstone { target.value } else { value }),
                            left: target.left,
                            right: target.right,
                        },
                    )
                } else {
                    final(self).nodes@ == old(self).nodes@ && final(self).buffer@ == old(
                        self,
                    ).buffer@.push(update_op_record(s4vector, value)) && r == Err::<
                        BroadcastOperation,
                        OperationError,
                    >(OperationError::DependencyNotMet)
                }
            }),
    {
        proof {
            lemma_find_id_props(self.nodes@, s4vector);
        }
        let idx = find_node(&self.nodes, &s4vector);
        if idx >= self.nodes.len() {
            self.buffer.push(
                Operation {
                    operation: OperationType::Update,
                    s4vector,
                    value: Some(value),
                    tombstone: false,
                    left: None,
                    right: None,
                },
            );
            return Err(OperationError::DependencyNotMet);
        }
        let tomb = self.nodes[idx].tombstone;
        let left = self.nodes[idx].left;
        let right = self.nodes[idx].right;
        let desc_value: String = if tomb {
            self.nodes[idx].value.clone()
        } else {
            value.clone()
        };
        if !tomb {
            set_value_at(&mut self.nodes, &s4vector, value);
        }
        proof {
            lemma_set_value_preserves_wf(old(self).nodes@, s4vector, value);
        }
        self.apply_buffered_operations();
        proof {
            lemma_preserved_trans(
                old(self).nodes@,
                spec_set_value(old(self).nodes@, s4vector, value),
                self.nodes@,
            );
        }
        Ok(
            BroadcastOperation {
                operation: OperationType::Update,
                document_id,
                ssn: s4vector.ssn,
                sum: s4vector.sum,
                sid: s4vector.sid,
                seq: s4vector.seq,
                value: Some(desc_value),
                left,
                right,
            },
        )
    }

    /// A local delete: sets the tombstone of the target and sweeps the
    /// buffer; a missing target defers the operation. A tombstone, once set,
    /// is never cleared.
    pub fn local_delete(&mut self, s4vector: S4Vector, document_id: u128) -> (r: Result<
        BroadcastOperation,
        OperationError,
    >)
        requires
            old(self).wf(),
        ensures
            final(self).wf(),
            final(self).session_id == old(self).session_id,
            final(self).site_id == old(self).site_id,
            final(self).local_sequence == old(self).local_sequence,
            nodes_preserved(old(self).nodes@, final(self).nodes@),
            ({
                if has_id(old(self).nodes@, s4vector) {
                    let target = old(self).nodes@[find_id(old(self).nodes@, s4vector)];
                    let sw = spec_sweep(
                        spec_set_tombstone(old(self).nodes@, s4vector),
                        old(self).buffer@,
                    );
                    final(self).nodes@ == sw.0 && final(self).buffer@ == sw.1 && r
                        == Ok::<BroadcastOperation, OperationError>(
                        BroadcastOperation {
                            operation: OperationType::Delete,
                            document_id,
                            ssn: s4vector.ssn,
                            sum: s4vector.sum,
                            sid: s4vector.sid,
                            seq: s4vector.seq,
                            value: None,
                            left: target.left,
                            right: target.right,
                        },
                    )
                } else {
                    final(self).nodes@ == old(self).nodes@ && final(self).buffer@ == old(
                        self,
                    ).buffer@.push(delete_op_record(s4vector)) && r == Err::<
                        BroadcastOperation,
                        OperationError,
                    >(OperationError::DependencyNotMet)
                }
            }),
    {
        proof {
            lemma_find_id_props(self.nodes@, s4vector);
        }
        let idx = find_node(&self.nodes, &s4vector);
        if idx >= self.nodes.len() {
            self.buffer.push(
                Operation {
                    operation: OperationType::Delete,
                    s4vector,
                    value: None,
                    tombstone: false,
                    left: None,
                    right: None,
                },
            );
            return Err(OperationError::DependencyNotMet);
        }
        let left = self.nodes[idx].left;
        let right = self.nodes[idx].right;
        set_tombstone_at(&mut self.nodes, &s4vector);
        proof {
            lemma_set_tombstone_preserves_wf(old(self).nodes@, s4vector);
        }
        self.apply_buffered_operations();
        proof {
            lemma_preserved_trans(
                old(self).nodes@,
                spec_set_tombstone(old(self).nodes@, s4vector),
                self.nodes@,
            );
        }
        Ok(
            BroadcastOperation {
                operation: OperationType::Delete,
                document_id,
                ssn: s4vector.ssn,
                sum: s4vector.sum,
                sid: s4vector.sid,
                seq: s4vector.seq,
                value: None,
                left,
                right,
            },
        )
    }

    /// Merges a remote insert: a duplicate identifier is silently ignored, a
    /// missing left anchor defers the operation (duplicates suppressed), and
    /// otherwise the node settles at its landing slot and the buffer is
    /// swept once.
    pub fn remote_insert(
        &mut self,
        value: String,
        s4vector: S4Vector,
        left: Option<S4Vector>,
        right: Option<S4Vector>,
    )
        requires
            old(self).wf(),
        ensures
            final(self).wf(),
            final(self).session_id == old(self).session_id,
            final(self).site_id == old(self).site_id,
            final(self).local_sequence == old(self).local_sequence,
            nodes_preserved(old(self).nodes@, final(self).nodes@),
            final(self).nodes@ == spec_remote_insert(
                old(self).nodes@,
                old(self).buffer@,
                value,
                s4vector,
                left,
                right,
            ).0,
            final(self).buffer@ == spec_remote_insert(
                old(self).nodes@,
                old(self).buffer@,
                value,
                s4vector,
                left,
                right,
            ).1,
    {
        proof {
            lemma_preserved_refl(self.nodes@);
        }
        if contains_node(&self.nodes, &s4vector) {
            return ;
        }
        let left_ok = match &left {
            Some(l) => contains_node(&self.nodes, l),
            None => true,
        };
        if !left_ok {
            let op = Operation {
                operation: OperationType::Insert,
                s4vector,
                value: Some(value),
                tombstone: false,
                left,
                right,
            };
            buffer_push(&mut self.buffer, op);
            return ;
        }
        let node = Node { value, s4vector, tombstone: false, left, right };
        insert_ready_node(&mut self.nodes, node);
        self.apply_buffered_operations();
        proof {
            lemma_preserved_trans(
                old(self).nodes@,
                spec_insert_node(
                    old(self).nodes@,
                    (Node {
                        value: node.value,
                        s4vector,
                        tombstone: false,
                        left,
                        right,
                    }),
                ),
                self.nodes@,
            );
        }
    }

    /// Merges a remote update: idempotent on the target's value; a missing
    /// target defers the operation (duplicates suppressed).
    pub fn remote_update(&mut self, s4vector: S4Vector, value: String)
        requires
            old(self).wf(),
        ensures
            final(self).wf(),
            final(self).session_id == old(self).session_id,
            final(self).site_id == old(self).site_id,
            final(self).local_sequence == old(self).local_sequence,
            nodes_preserved(old(self).nodes@, final(self).nodes@),
            final(self).nodes@ == spec_remote_update(
                old(self).nodes@,
                old(self).buffer@,
                s4vector,
                value,
            ).0,
            final(self).buffer@ == spec_remote_update(
                old(self).nodes@,
                old(self).buffer@,
                s4vector,
                value,
            ).1,
    {
        proof {
            lemma_preserved_refl(self.nodes@);
        }
        if !contains_node(&self.nodes, &s4vector) {
            let op = Operation {
                operation: OperationType::Update,
                s4vector,
                value: Some(value),
                tombstone: false,
                left: None,
                right: None,
            };
            buffer_push(&mut self.buffer, op);
            return ;
        }
        proof {
            lemma_set_value_preserves_wf(self.nodes@, s4vector, value);
        }
        set_value_at(&mut self.nodes, &s4vector, value);
        self.apply_buffered_operations();
        proof {
            lemma_preserved_trans(
                old(self).nodes@,
                spec_set_value(old(self).nodes@, s4vector, value),
                self.nodes@,
            );
        }
    }

    /// Merges a remote delete: idempotent on the tombstone; a missing target
    /// defers the operation (duplicates suppressed).
    pub fn remote_delete(&mut self, s4vector: S4Vector)
        requires
            old(self).wf(),
        ensures
            final(self).wf(),
            final(self).session_id == old(self).session_id,
            final(self).site_id == old(self).site_id,
            final(self).local_sequence == old(self).local_sequence,
            nodes_preserved(old(self).nodes@, final(self).nodes@),
            final(self).nodes@ == spec_remote_delete(
                old(self).nodes@,
                old(self).buffer@,
                s4vector,
            ).0,
            final(self).buffer@ == spec_remote_delete(
                old(self).nodes@,
                old(self).buffer@,
                s4vector,
            ).1,
    {
        proof {
            lemma_preserved_refl(self.nodes@);
        }
        if !contains_node(&self.nodes, &s4vector) {
            let op = Operation {
                operation: OperationType::Delete,
                s4vector,
                value: None,
                tombstone: false,
                left: None,
                right: None,
            };
            buffer_push(&mut self.buffer, op);
            return ;
        }
        proof {
            lemma_set_tombstone_preserves_wf(self.nodes@, s4vector);
        }
        set_tombstone_at(&mut self.nodes, &s4vector);
        self.apply_buffered_operations();
        proof {
            lemma_preserved_trans(
                old(self).nodes@,
                spec_set_tombstone(old(self).nodes@, s4vector),
                self.nodes@,
            );
        }
    }

    /// One delivery of a remote operation, idempotent under redelivery: the
    /// inbound channel may reorder and repeat. An insert or update that
    /// carries no value has nothing to apply and is ignored.
    pub fn remote_apply(&mut self, op: Operation)
        requires
            old(self).wf(),
        ensures
            final(self).wf(),
            final(self).session_id == old(self).session_id,
            final(self).site_id == old(self).site_id,
            final(self).local_sequence == old(self).local_sequence,
            nodes_preserved(old(self).nodes@, final(self).nodes@),
            final(self).nodes@ == spec_remote_step(old(self).nodes@, old(self).buffer@, op).0,
            final(self).buffer@ == spec_remote_step(old(self).nodes@, old(self).buffer@, op).1,
    {
        proof {
            lemma_preserved_refl(self.nodes@);
        }
        match op.operation {
            OperationType::Insert => {
                match op.value {
                    Some(v) => {
                        self.remote_insert(v, op.s4vector, op.left, op.right);
                    },
                    None => {},
                }
            },
            OperationType::Update => {
                match op.value {
                    Some(v) => {
                        self.remote_update(op.s4vector, v);
                    },
                    None => {},
                }
            },
            OperationType::Delete => {
                self.remote_delete(op.s4vector);
            },
        }
    }
}

} // verus!
