//! The S4Vector identifier space: a four-component version identifier with a
//! total lexicographic order over `(ssn, sum, sid, seq)`.
//!
//! Every operation in the engine is identified by one S4Vector. The order is
//! the arbiter of every tie-break: `sum` grows with causal depth, so a
//! later-originated insert ranks above an earlier concurrent insert at the
//! same anchor; `sid` then `seq` break the remaining ties deterministically.

use vstd::prelude::*;

verus! {

/// A four-component version identifier.
///
/// - `ssn`: session number, a monotone per-document session identifier.
/// - `sum`: summed precedence, grows with causal depth
///   (`1 + max(left.sum, right.sum)` at generation time).
/// - `sid`: replica identifier (site id).
/// - `seq`: per-replica monotone local sequence number.
#[derive(Debug, Clone, Copy, PartialEq, Eq, Hash, PartialOrd, Ord, Structural)]
pub struct S4Vector {
    pub ssn: u64,
    pub sum: u64,
    pub sid: u64,
    pub seq: u64,
}

/// Strict lexicographic order over `(ssn, sum, sid, seq)`.
pub open spec fn s4_lt(a: S4Vector, b: S4Vector) -> bool {
    ||| a.ssn < b.ssn
    ||| (a.ssn == b.ssn && a.sum < b.sum)
    ||| (a.ssn == b.ssn && a.sum == b.sum && a.sid < b.sid)
    ||| (a.ssn == b.ssn && a.sum == b.sum && a.sid == b.sid && a.seq < b.seq)
}

/// The order is total: any two identifiers are ordered, and only equal
/// identifiers are unordered both ways.
pub proof fn lemma_s4_order_total(a: S4Vector, b: S4Vector)
    ensures
        s4_lt(a, b) || s4_lt(b, a) || a == b,
        !(s4_lt(a, b) && s4_lt(b, a)),
        !(s4_lt(a, b) && a == b),
{
}

/// The order is transitive.
pub proof fn lemma_s4_order_transitive(a: S4Vector, b: S4Vector, c: S4Vector)
    requires
        s4_lt(a, b),
        s4_lt(b, c),
    ensures
        s4_lt(a, c),
{
}

pub open spec fn spec_max_u64(a: u64, b: u64) -> u64 {
    if a >= b {
        a
    } else {
        b
    }
}

/// The summed precedence contributed by an optional anchor: its `sum`, or
/// zero where the anchor is absent.
pub open spec fn spec_anchor_sum(anchor: Option<S4Vector>) -> u64 {
    match anchor {
        Some(a) => a.sum,
        None => 0u64,
    }
}

/// The identifier minted for a local operation: the current session and site,
/// the current local sequence number, and a summed precedence strictly above
/// both anchors'.
pub open spec fn spec_generate(
    session_id: u64,
    site_id: u64,
    seq: u64,
    left: Option<S4Vector>,
    right: Option<S4Vector>,
) -> S4Vector {
    S4Vector {
        ssn: session_id,
        sum: (spec_max_u64(spec_anchor_sum(left), spec_anchor_sum(right)) + 1) as u64,
        sid: site_id,
        seq: seq,
    }
}

/// The value of an `Option<&S4Vector>` argument, as an owned option.
pub open spec fn spec_opt_s4(o: Option<&S4Vector>) -> Option<S4Vector> {
    match o {
        Some(v) => Some(*v),
        None => None,
    }
}

impl S4Vector {
    /// True exactly when `self` precedes `other` in the total order.
    pub fn is_less(&self, other: &S4Vector) -> (r: bool)
        ensures
            r == s4_lt(*self, *other),
    {
        if self.ssn != other.ssn {
            self.ssn < other.ssn
        } else if self.sum != other.sum {
            self.sum < other.sum
        } else if self.sid != other.sid {
            self.sid < other.sid
        } else {
            self.seq < other.seq
        }
    }

    /// Mints a fresh identifier for a local operation and advances the local
    /// sequence counter. Generation is total on all inputs the counters admit.
    pub fn generate(
        left: Option<&S4Vector>,
        right: Option<&S4Vector>,
        session_id: u64,
        site_id: u64,
        local_sequence: &mut u64,
    ) -> (r: S4Vector)
        requires
            *old(local_sequence) < u64::MAX,
            (left matches Some(l) ==> l.sum < u64::MAX),
            (right matches Some(r) ==> r.sum < u64::MAX),
        ensures
            r == spec_generate(
                session_id,
                site_id,
                *old(local_sequence),
                spec_opt_s4(left),
                spec_opt_s4(right),
            ),
            *final(local_sequence) == *old(local_sequence) + 1,
    {
        let left_sum: u64 = match left {
            Some(l) => l.sum,
            None => 0,
        };
        let right_sum: u64 = match right {
            Some(r) => r.sum,
            None => 0,
        };
        let base: u64 = if left_sum >= right_sum {
            left_sum
        } else {
            right_sum
        };
        let seq: u64 = *local_sequence;
        *local_sequence = *local_sequence + 1;
        S4Vector { ssn: session_id, sum: base + 1, sid: site_id, seq: seq }
    }
}

/// A freshly generated identifier outranks both of its anchors: its summed
/// precedence is strictly greater, so the new operation is strictly greater
/// in the total order whenever the session numbers agree.
pub proof fn lemma_generate_exceeds_anchors(
    session_id: u64,
    site_id: u64,
    seq: u64,
    left: Option<S4Vector>,
    right: Option<S4Vector>,
)
    requires
        spec_anchor_sum(left) < u64::MAX,
        spec_anchor_sum(right) < u64::MAX,
    ensures
        (left matches Some(l) ==> (l.ssn == session_id ==> s4_lt(
            l,
            spec_generate(session_id, site_id, seq, left, right),
        ))),
        (right matches Some(r) ==> (r.ssn == session_id ==> s4_lt(
            r,
            spec_generate(session_id, site_id, seq, left, right),
        ))),
{
}

/// Identifiers generated at distinct counter values are distinct, and their
/// sequence components increase in generation order: for all operations
/// minted with the same `(ssn, sid)`, `seq` values are pairwise distinct and
/// strictly increasing.
pub proof fn lemma_s4_uniqueness(
    session_id: u64,
    site_id: u64,
    seq1: u64,
    seq2: u64,
    left1: Option<S4Vector>,
    right1: Option<S4Vector>,
    left2: Option<S4Vector>,
    right2: Option<S4Vector>,
)
    requires
        seq1 < seq2,
    ensures
        spec_generate(session_id, site_id, seq1, left1, right1).seq < spec_generate(
            session_id,
            site_id,
            seq2,
            left2,
            right2,
        ).seq,
        spec_generate(session_id, site_id, seq1, left1, right1) != spec_generate(
            session_id,
            site_id,
            seq2,
            left2,
            right2,
        ),
{
}

} // verus!
