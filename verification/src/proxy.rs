//! The consistent-hashing reverse proxy's decision core: the ring of
//! replicas, the successor lookup that assigns a client to a replica, the
//! lamport clock, and the fixed responses the proxy answers with when the
//! rate limiter denies or fails. The sockets and the limiter RPC live in the
//! shell around this library; it hands the decisions here a plain hash key
//! and a plain event.

use std::hash::{Hash, Hasher};

use vstd::prelude::*;
use vstd::string::StringSliceAdditionalSpecFns;
use vstd::string::StrSliceExecFns;

verus! {

/// A replica in the ring.
#[derive(Debug, Clone, PartialEq, Eq)]
pub struct Node {
    pub address: String,
}

impl Node {
    /// A node serving the given address.
    pub fn new(address: String) -> (r: Node)
        ensures
            r.address == address,
    {
        Node { address }
    }
}

/// Ring entries carry strictly increasing keys.
pub open spec fn ring_sorted(ring: Seq<(u64, String)>) -> bool {
    forall|i: int, j: int|
        0 <= i < j < ring.len() ==> (#[trigger] ring[i]).0 < (#[trigger] ring[j]).0
}

/// First ring position at or after `from` whose key is at least `key`, or
/// the ring's length.
pub open spec fn succ_from(ring: Seq<(u64, String)>, key: u64, from: int) -> int
    decreases ring.len() - from,
{
    if from < 0 || from >= ring.len() {
        ring.len() as int
    } else if ring[from].0 >= key {
        from
    } else {
        succ_from(ring, key, from + 1)
    }
}

/// The ring position serving `key`: the first entry whose key is at least
/// `key`, wrapping to the ring's first entry.
pub open spec fn ring_target(ring: Seq<(u64, String)>, key: u64) -> int {
    if succ_from(ring, key, 0) < ring.len() {
        succ_from(ring, key, 0)
    } else {
        0
    }
}

proof fn lemma_succ_is(ring: Seq<(u64, String)>, key: u64, from: int, k: int)
    requires
        0 <= from <= k <= ring.len(),
        forall|j: int| from <= j < k ==> (#[trigger] ring[j]).0 < key,
        k < ring.len() ==> ring[k].0 >= key,
    ensures
        succ_from(ring, key, from) == k,
    decreases k - from,
{
    if from < k {
        lemma_succ_is(ring, key, from + 1, k);
    }
}

/// Inserts an entry into a sorted ring, replacing the entry already keyed by
/// an equal hash, as an ordered map's insert would.
fn ring_insert(ring: &mut Vec<(u64, String)>, key: u64, address: String)
    requires
        ring_sorted(old(ring)@),
    ensures
        ring_sorted(final(ring)@),
        final(ring)@.len() <= old(ring)@.len() + 1,
        exists|k: int|
            0 <= k < final(ring)@.len()
                && (#[trigger] final(ring)@[k]).0 == key
                && final(ring)@[k].1 == address,
        forall|k: int|
            0 <= k < final(ring)@.len()
                ==> ((#[trigger] final(ring)@[k]).1 == address
                || (exists|j: int| 0 <= j < old(ring)@.len()
                    && final(ring)@[k] == #[trigger] old(ring)@[j])),
{
    let n = ring.len();
    let mut i: usize = 0;
    while i < n
        invariant
            i <= n,
            n == ring@.len(),
            ring@ == old(ring)@,
            ring_sorted(ring@),
            forall|j: int| 0 <= j < i ==> (#[trigger] ring@[j]).0 < key,
        decreases n - i,
    {
        if ring[i].0 >= key {
            let ghost ring0 = ring@;
            if ring[i].0 == key {
                let _ = ring.remove(i);
                ring.insert(i, (key, address));
                proof {
                    let t = ring@;
                    assert(t.len() == ring0.len());
                    assert(forall|j: int| 0 <= j < t.len() && j != i ==> t[j] == ring0[j]);
                    assert(t[i as int].0 == ring0[i as int].0);
                    assert forall|a: int, b: int|
                        0 <= a < b < t.len() implies (#[trigger] t[a]).0 < (#[trigger] t[b]).0 by {
                        assert(t[a].0 == ring0[a].0 && t[b].0 == ring0[b].0);
                    }
                    assert(t[i as int].0 == key && t[i as int].1 == address);
                }
                return ;
            }
            ring.insert(i, (key, address));
            proof {
                let t = ring@;
                ring0.insert_ensures(i as int, (key, address));
                assert forall|a: int, b: int|
                    0 <= a < b < t.len() implies (#[trigger] t[a]).0 < (#[trigger] t[b]).0 by {
                    if b < i {
                        assert(t[a] == ring0[a] && t[b] == ring0[b]);
                    } else if b == i {
                        assert(t[a] == ring0[a]);
                        assert(ring0[a].0 < key);
                    } else if a < i {
                        assert(t[a] == ring0[a] && t[b] == ring0[b - 1]);
                        assert(a < b - 1);
                    } else if a == i {
                        assert(t[b] == ring0[b - 1]);
                        assert(ring0[b - 1].0 >= key);
                        assert(ring0[i as int].0 > key);
                        if b - 1 > i {
                            assert(ring0[i as int].0 < ring0[b - 1].0);
                        }
                    } else {
                        assert(t[a] == ring0[a - 1] && t[b] == ring0[b - 1]);
                    }
                }
                assert(t[i as int].0 == key && t[i as int].1 == address);
            }
            return ;
        }
        i = i + 1;
    }
    let ghost ring0 = ring@;
    ring.push((key, address));
    proof {
        let t = ring@;
        assert forall|a: int, b: int|
            0 <= a < b < t.len() implies (#[trigger] t[a]).0 < (#[trigger] t[b]).0 by {
            assert(t[a] == ring0[a]);
            if b < ring0.len() {
                assert(t[b] == ring0[b]);
            } else {
                assert(t[b].0 == key);
                assert(ring0[a].0 < key);
            }
        }
        assert(t[t.len() - 1].0 == key && t[t.len() - 1].1 == address);
    }
}

/// Ring entry `j` serves one of the given addresses.
pub open spec fn ring_entry_from(ring: Seq<(u64, String)>, j: int, addresses: Seq<String>) -> bool {
    exists|i: int| 0 <= i < addresses.len() && ring[j].1 == #[trigger] addresses[i]
}

/// The proxy's state: the replicas, the lamport clock, and the hash ring.
#[derive(Debug)]
pub struct LoadBalancer {
    pub nodes: Vec<Node>,
    pub lamport_timestamp: u64,
    pub ring: Vec<(u64, String)>,
}

impl LoadBalancer {
    /// Well-formedness: the ring's keys are strictly increasing.
    pub open spec fn wf(&self) -> bool {
        ring_sorted(self.ring@)
    }

    /// Hashing of an address (or a client identifier) onto the ring.
    ///
    /// Relies on `DefaultHasher`: a 64-bit digest of the string's bytes.
    /// Nothing is assumed about the digest's value, so every claim about the
    /// ring holds whatever the hasher returns.
    #[verifier::external_body]
    pub fn add_node(address: &String) -> (r: u64) {
        let mut hasher = std::collections::hash_map::DefaultHasher::new();
        address.hash(&mut hasher);
        hasher.finish()
    }

    /// Builds the ring and the node list from the replica addresses. The
    /// ring holds at most one entry per hash key, so an address whose key
    /// collides with a later one is replaced, as in an ordered map; with
    /// any address at all the ring is never empty, and every ring entry
    /// serves one of the given addresses.
    pub fn new(addresses: Vec<String>) -> (r: LoadBalancer)
        ensures
            r.wf(),
            r.lamport_timestamp == 0,
            r.nodes@.len() == addresses@.len(),
            forall|i: int|
                0 <= i < addresses@.len() ==> (#[trigger] r.nodes@[i]).address == addresses@[i],
            r.ring@.len() <= addresses@.len(),
            addresses@.len() > 0 ==> r.ring@.len() >= 1,
            forall|j: int|
                0 <= j < r.ring@.len() ==> #[trigger] ring_entry_from(r.ring@, j, addresses@),
    {
        let ghost addrs = addresses@;
        let mut ring: Vec<(u64, String)> = Vec::new();
        let mut nodes: Vec<Node> = Vec::new();
        let mut rest = addresses;
        let ghost mut k: int = 0;
        while rest.len() > 0
            invariant
                0 <= k <= addrs.len(),
                rest@ =~= addrs.skip(k),
                ring_sorted(ring@),
                ring@.len() <= k,
                k >= 1 ==> ring@.len() >= 1,
                nodes@.len() == k,
                forall|i: int| 0 <= i < k ==> (#[trigger] nodes@[i]).address == addrs[i],
                forall|j: int|
                    0 <= j < ring@.len() ==> exists|i: int|
                        0 <= i < k && (#[trigger] ring@[j]).1 == #[trigger] addrs[i],
            decreases rest@.len(),
        {
            let address = rest.remove(0);
            let ghost ga = address;
            proof {
                assert(address == addrs.skip(k)[0]);
                assert(address == addrs[k]);
                assert(rest@ =~= addrs.skip(k + 1));
            }
            let h = LoadBalancer::add_node(&address);
            nodes.push(Node { address: address.clone() });
            let ghost ring_before = ring@;
            ring_insert(&mut ring, h, address);
            proof {
                assert forall|j: int| 0 <= j < ring@.len() implies exists|i: int|
                    0 <= i < k + 1 && (#[trigger] ring@[j]).1 == #[trigger] addrs[i] by {
                    if ring@[j].1 == ga {
                        assert(0 <= k < k + 1 && ring@[j].1 == addrs[k]);
                    } else {
                        let jj = choose|jj: int|
                            0 <= jj < ring_before.len() && ring@[j] == #[trigger] ring_before[jj];
                        let i = choose|i: int|
                            0 <= i < k && (#[trigger] ring_before[jj]).1 == #[trigger] addrs[i];
                        assert(0 <= i < k + 1 && ring@[j].1 == addrs[i]);
                    }
                }
                k = k + 1;
            }
        }
        proof {
            assert(addrs.skip(k).len() == 0);
            assert(k == addrs.len());
            assert forall|j: int| 0 <= j < ring@.len() implies #[trigger] ring_entry_from(
                ring@,
                j,
                addrs,
            ) by {
                let i = choose|i: int| 0 <= i < k && ring@[j].1 == #[trigger] addrs[i];
                assert(0 <= i < addrs.len() && ring@[j].1 == addrs[i]);
            }
        }
        LoadBalancer { nodes, lamport_timestamp: 0, ring }
    }

    /// Returns the current logical time and advances the clock.
    pub fn increment_time(&mut self) -> (r: u64)
        requires
            old(self).lamport_timestamp < u64::MAX,
        ensures
            r == old(self).lamport_timestamp,
            final(self).lamport_timestamp == old(self).lamport_timestamp + 1,
            final(self).nodes@ == old(self).nodes@,
            final(self).ring@ == old(self).ring@,
    {
        let temp = self.lamport_timestamp;
        self.lamport_timestamp = self.lamport_timestamp + 1;
        temp
    }

    /// The address serving a hash key: the first ring entry whose key is at
    /// least the given one, wrapping to the ring's first entry; nothing on
    /// an empty ring.
    pub fn get_node(&self, key: u64) -> (r: Option<&String>)
        requires
            self.wf(),
        ensures
            match r {
                Some(a) => self.ring@.len() > 0 && *a == self.ring@[ring_target(
                    self.ring@,
                    key,
                )].1,
                None => self.ring@.len() == 0,
            },
    {
        let n = self.ring.len();
        let mut i: usize = 0;
        while i < n
            invariant
                i <= n,
                n == self.ring@.len(),
                forall|j: int| 0 <= j < i ==> (#[trigger] self.ring@[j]).0 < key,
            decreases n - i,
        {
            if self.ring[i].0 >= key {
                proof {
                    lemma_succ_is(self.ring@, key, 0, i as int);
                }
                return Some(&self.ring[i].1);
            }
            i = i + 1;
        }
        proof {
            lemma_succ_is(self.ring@, key, 0, n as int);
        }
        if self.ring.len() > 0 {
            Some(&self.ring[0].1)
        } else {
            None
        }
    }
}

/// What the rate limiter said, or why it could not be asked.
#[derive(Debug, Clone, Copy, PartialEq, Eq, Structural)]
pub enum LimiterEvent {
    Unreachable,
    CallFailed,
    Denied,
    Allowed,
}

/// The raw response sent when the proxy cannot serve a request.
pub fn internal_error_response() -> (r: Vec<u8>)
    ensures
        r@ == "HTTP/1.1 500 Internal Server Error\r\nContent-Length: 0\r\n\r\n".spec_bytes(),
{
    "HTTP/1.1 500 Internal Server Error\r\nContent-Length: 0\r\n\r\n".as_bytes_vec()
}

/// The raw response sent when the rate limiter denies a request.
pub fn too_many_requests_response() -> (r: Vec<u8>)
    ensures
        r@ == "HTTP/1.1 429 Too Many Requests\r\nContent-Length: 0\r\n\r\n".spec_bytes(),
{
    "HTTP/1.1 429 Too Many Requests\r\nContent-Length: 0\r\n\r\n".as_bytes_vec()
}

/// The proxy's answer to what the limiter said: a failure to ask the limiter
/// is an infrastructure error, a denial is answered with too-many-requests,
/// and an allowance forwards the request (no canned response).
pub fn rate_limit_response(event: LimiterEvent) -> (r: Option<Vec<u8>>)
    ensures
        match event {
            LimiterEvent::Unreachable | LimiterEvent::CallFailed => (r matches Some(v) && v@
                == "HTTP/1.1 500 Internal Server Error\r\nContent-Length: 0\r\n\r\n".spec_bytes()),
            LimiterEvent::Denied => (r matches Some(v) && v@
                == "HTTP/1.1 429 Too Many Requests\r\nContent-Length: 0\r\n\r\n".spec_bytes()),
            LimiterEvent::Allowed => r is None,
        },
{
    match event {
        LimiterEvent::Unreachable => Some(internal_error_response()),
        LimiterEvent::CallFailed => Some(internal_error_response()),
        LimiterEvent::Denied => Some(too_many_requests_response()),
        LimiterEvent::Allowed => None,
    }
}

} // verus!
