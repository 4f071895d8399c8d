//! The port-mapping session core: a faithful local record of the mappings
//! this process opened on the gateway, the decisions around opening and
//! removing them, and teardown that hands every still-owned mapping out for
//! removal exactly once.
//!
//! The gateway RPCs themselves (discovery, add, remove) are network calls
//! performed by the surrounding program; it reports each outcome back to
//! these types, which own all bookkeeping and every decision about what to
//! attempt next.

use vstd::prelude::*;

use crate::addr::{GatewayAddr, Ipv4};

verus! {

/// Transport protocol of a mapping.
#[derive(Clone, Copy, PartialEq, Eq, Structural, Debug, Hash)]
pub enum Protocol {
    Tcp,
    Udp,
}

/// Identity of one opened port forward: a gateway-side mapping is addressed
/// by protocol and external port alone, so the internal port is not part of
/// the identity.
#[derive(Clone, Copy, PartialEq, Eq, Structural, Debug, Hash)]
pub struct Port {
    pub proto: Protocol,
    pub num: u16,
}

/// One failed discovery attempt: the interface it was scoped to and the
/// reason the gateway search reported.
#[derive(Debug, Clone)]
pub struct SearchFailure {
    pub interface: Ipv4,
    pub reason: String,
}

/// What a removal request decides: which mapping the gateway must be asked
/// to drop (always, whether or not the session knew it — the local record is
/// bookkeeping, not a gate on removal), and whether the session had it on
/// record.
#[derive(Clone, Copy, PartialEq, Eq, Structural, Debug)]
pub struct RemovalDirective {
    pub port: Port,
    pub known: bool,
}

/// One successful bookkeeping step of a session: a mapping the gateway
/// accepted, or a mapping explicitly removed.
pub enum SessionOp {
    Open(Port),
    Remove(Port),
}

/// The set of mappings on record after a sequence of successful calls,
/// starting from an empty record. Each step is exactly the set-level effect
/// that `record_opened` and `remove_port` state in their contracts.
pub open spec fn record_set(ops: Seq<SessionOp>) -> Set<Port>
    decreases ops.len(),
{
    if ops.len() == 0 {
        Set::empty()
    } else {
        match ops.last() {
            SessionOp::Open(p) => record_set(ops.drop_last()).insert(p),
            SessionOp::Remove(p) => record_set(ops.drop_last()).remove(p),
        }
    }
}

/// A port-mapping session: owns the record of mappings it opened against one
/// gateway, bound to one local interface. The ghost `history` lists the
/// successful opens and removals the session has processed, in order.
pub struct Forwarder {
    pub gateway_addr: GatewayAddr,
    pub network_interface: Ipv4,
    pub open_ports: Vec<Port>,
    pub closed: bool,
    pub history: Ghost<Seq<SessionOp>>,
}

/// Finds the first position of `p`, scanning from the front.
fn find_port(ports: &Vec<Port>, p: Port) -> (r: Option<usize>)
    ensures
        match r {
            Some(i) => 0 <= i < ports@.len() && ports@[i as int] == p && (forall|j: int|
                0 <= j < i ==> ports@[j] != p),
            None => !ports@.contains(p),
        },
{
    let mut i: usize = 0;
    while i < ports.len()
        invariant
            i <= ports@.len(),
            forall|j: int| 0 <= j < i ==> ports@[j] != p,
        decreases ports@.len() - i,
    {
        if ports[i] == p {
            return Some(i);
        }
        i = i + 1;
    }
    None
}

impl Forwarder {
    /// Well-formedness: the record never lists a mapping twice, a closed
    /// session has nothing left on record, and while the session is active
    /// its record is exactly what its history of successful calls dictates.
    pub open spec fn wf(self) -> bool {
        &&& self.open_ports@.no_duplicates()
        &&& self.closed ==> self.open_ports@ =~= Seq::<Port>::empty()
        &&& !self.closed ==> self.open_ports@.to_set() == record_set(self.history@)
    }

    /// A fresh session around a located gateway: active, with an empty
    /// record and an empty history.
    pub fn new(gateway_addr: GatewayAddr, network_interface: Ipv4) -> (f: Forwarder)
        ensures
            f.gateway_addr == gateway_addr,
            f.network_interface == network_interface,
            f.open_ports@ == Seq::<Port>::empty(),
            f.history@ == Seq::<SessionOp>::empty(),
            !f.closed,
            f.wf(),
    {
        let f = Forwarder {
            gateway_addr,
            network_interface,
            open_ports: Vec::new(),
            closed: false,
            history: Ghost(Seq::empty()),
        };
        proof {
            assert(f.open_ports@ =~= Seq::<Port>::empty());
            assert(f.open_ports@.to_set() =~= Set::<Port>::empty());
        }
        f
    }

    /// The gateway accepted an add-mapping request: append the mapping to
    /// the record, unless it is already on record (the record must never
    /// drift into listing a mapping twice).
    pub fn record_opened(&mut self, proto: Protocol, external_port: u16)
        requires
            !old(self).closed,
            old(self).wf(),
        ensures
            final(self).wf(),
            !final(self).closed,
            final(self).gateway_addr == old(self).gateway_addr,
            final(self).network_interface == old(self).network_interface,
            ({
                let p = (Port { proto, num: external_port });
                &&& old(self).open_ports@.contains(p) ==> final(self).open_ports@ == old(
                    self,
                ).open_ports@
                &&& !old(self).open_ports@.contains(p) ==> final(self).open_ports@ == old(
                    self,
                ).open_ports@.push(p)
                &&& final(self).open_ports@.to_set() == old(self).open_ports@.to_set().insert(p)
                &&& final(self).history@ == old(self).history@.push(SessionOp::Open(p))
            }),
    {
        let p = Port { proto, num: external_port };
        let ghost pre = self.open_ports@;
        proof {
            let h = self.history@.push(SessionOp::Open(p));
            assert(h.drop_last() =~= self.history@);
            self.history@ = h;
        }
        match find_port(&self.open_ports, p) {
            Some(_) => {
                proof {
                    assert(pre.to_set() =~= pre.to_set().insert(p));
                }
            },
            None => {
                self.open_ports.push(p);
                proof {
                    assert(self.open_ports@.no_duplicates()) by {
                        assert(forall|i: int, j: int|
                            0 <= i < j < self.open_ports@.len() ==> self.open_ports@[i]
                                != self.open_ports@[j]) by {
                            assert(forall|i: int|
                                0 <= i < pre.len() ==> self.open_ports@[i] == pre[i]);
                        }
                    }
                    assert(self.open_ports@.to_set() =~= pre.to_set().insert(p)) by {
                        assert(forall|q: Port|
                            #[trigger] self.open_ports@.contains(q) <==> (pre.contains(q) || q
                                == p)) by {
                            assert(forall|q: Port| pre.contains(q) ==> self.open_ports@.contains(
                                q,
                            )) by {
                                assert(forall|i: int|
                                    0 <= i < pre.len() ==> self.open_ports@[i] == pre[i]);
                            }
                            assert(self.open_ports@[pre.len() as int] == p);
                        }
                    }
                }
            },
        }
    }

    /// Decide an explicit removal: deregister the mapping locally first (so
    /// bookkeeping cannot desync even if the following gateway call fails),
    /// and direct the caller to attempt the gateway-side removal whether or
    /// not the mapping was on record.
    pub fn remove_port(&mut self, remote_port: u16, proto: Protocol) -> (r: RemovalDirective)
        requires
            !old(self).closed,
            old(self).wf(),
        ensures
            final(self).wf(),
            !final(self).closed,
            final(self).gateway_addr == old(self).gateway_addr,
            final(self).network_interface == old(self).network_interface,
            r.port == (Port { proto, num: remote_port }),
            r.known == old(self).open_ports@.contains(r.port),
            final(self).open_ports@ == old(self).open_ports@.remove_value(r.port),
            final(self).open_ports@.to_set() == old(self).open_ports@.to_set().remove(r.port),
            !final(self).open_ports@.contains(r.port),
            final(self).history@ == old(self).history@.push(SessionOp::Remove(r.port)),
    {
        let p = Port { proto, num: remote_port };
        let ghost pre = self.open_ports@;
        proof {
            let h = self.history@.push(SessionOp::Remove(p));
            assert(h.drop_last() =~= self.history@);
            self.history@ = h;
        }
        match find_port(&self.open_ports, p) {
            Some(i) => {
                self.open_ports.remove(i);
                proof {
                    pre.index_of_first_ensures(p);
                    let fi = pre.index_of_first(p)->Some_0;
                    assert(fi == i as int);
                    assert(self.open_ports@ == pre.remove_value(p));
                    lemma_remove_at_no_dup(pre, i as int);
                    assert(self.open_ports@.to_set() =~= pre.to_set().remove(p));
                }
                RemovalDirective { port: p, known: true }
            },
            None => {
                proof {
                    pre.index_of_first_ensures(p);
                    assert(self.open_ports@ == pre.remove_value(p));
                    assert(pre.to_set() =~= pre.to_set().remove(p));
                }
                RemovalDirective { port: p, known: false }
            },
        }
    }

    /// Teardown: hand out every mapping still on record for gateway-side
    /// removal, clear the record, and mark the session closed. A second call
    /// finds the session closed and hands out nothing, so removal of each
    /// tracked mapping is attempted at most once in aggregate.
    pub fn close(&mut self) -> (to_remove: Vec<Port>)
        requires
            old(self).wf(),
        ensures
            final(self).wf(),
            final(self).history@ == old(self).history@,
            close_post(*old(self), *final(self), to_remove@),
    {
        if self.closed {
            let r: Vec<Port> = Vec::new();
            proof {
                assert(r@ =~= Seq::<Port>::empty());
            }
            return r;
        }
        self.closed = true;
        let mut out: Vec<Port> = Vec::new();
        core::mem::swap(&mut out, &mut self.open_ports);
        proof {
            assert(self.open_ports@ =~= Seq::<Port>::empty());
        }
        out
    }
}

/// What one `close` call did: the session ends closed with an empty record
/// and untouched identity, and the mappings handed out for removal are
/// exactly those the session still tracked — none if it was already closed.
pub open spec fn close_post(pre: Forwarder, post: Forwarder, removed: Seq<Port>) -> bool {
    &&& post.closed
    &&& post.open_ports@ == Seq::<Port>::empty()
    &&& post.gateway_addr == pre.gateway_addr
    &&& post.network_interface == pre.network_interface
    &&& removed == if pre.closed {
        Seq::<Port>::empty()
    } else {
        pre.open_ports@
    }
}

/// Teardown is idempotent: across two consecutive `close` calls, the
/// mappings handed out for gateway removal are in aggregate exactly the ones
/// the session tracked before the first call — the second call hands out
/// none.
pub proof fn lemma_close_idempotent(
    s0: Forwarder,
    s1: Forwarder,
    r1: Seq<Port>,
    s2: Forwarder,
    r2: Seq<Port>,
)
    requires
        close_post(s0, s1, r1),
        close_post(s1, s2, r2),
    ensures
        r2 == Seq::<Port>::empty(),
        !s0.closed ==> r1 + r2 =~= s0.open_ports@,
        s0.closed ==> r1 + r2 =~= Seq::<Port>::empty(),
{
}

/// Record fidelity: after any sequence of successful opens and removals,
/// whatever their order, a mapping is on record exactly when it was opened
/// at some point and not removed afterwards.
pub proof fn lemma_record_fidelity(ops: Seq<SessionOp>, p: Port)
    ensures
        record_set(ops).contains(p) <==> exists|i: int|
            0 <= i < ops.len() && (#[trigger] ops[i]) == SessionOp::Open(p) && (forall|j: int|
                i < j < ops.len() ==> (#[trigger] ops[j]) != SessionOp::Remove(p)),
    decreases ops.len(),
{
    if ops.len() == 0 {
    } else {
        let dl = ops.drop_last();
        let n = ops.len() as int;
        lemma_record_fidelity(dl, p);
        assert(forall|k: int| 0 <= k < n - 1 ==> dl[k] == #[trigger] ops[k]);
        let last_not_removal = ops.last() != SessionOp::Remove(p);
        if record_set(dl).contains(p) && last_not_removal {
            let i = choose|i: int|
                0 <= i < dl.len() && (#[trigger] dl[i]) == SessionOp::Open(p) && (forall|j: int|
                    i < j < dl.len() ==> (#[trigger] dl[j]) != SessionOp::Remove(p));
            assert(ops[i] == SessionOp::Open(p));
            assert(forall|j: int| i < j < n ==> (#[trigger] ops[j]) != SessionOp::Remove(p)) by {
                assert(forall|j: int| i < j < n - 1 ==> (#[trigger] ops[j]) == dl[j]);
            }
        }
        if exists|i: int|
            0 <= i < ops.len() && (#[trigger] ops[i]) == SessionOp::Open(p) && (forall|j: int|
                i < j < ops.len() ==> (#[trigger] ops[j]) != SessionOp::Remove(p)) {
            let i = choose|i: int|
                0 <= i < ops.len() && (#[trigger] ops[i]) == SessionOp::Open(p) && (forall|
                    j: int,
                |
                    i < j < ops.len() ==> (#[trigger] ops[j]) != SessionOp::Remove(p));
            if i < n - 1 {
                assert(dl[i] == SessionOp::Open(p));
                assert(forall|j: int| i < j < dl.len() ==> (#[trigger] dl[j]) != SessionOp::Remove(
                    p,
                ));
                assert(record_set(dl).contains(p));
                assert(ops[n - 1] != SessionOp::Remove(p));
            } else {
                assert(ops.last() == SessionOp::Open(p));
            }
        }
        match ops.last() {
            SessionOp::Open(q) => {
                if q == p {
                    assert(record_set(ops).contains(p));
                    assert(ops[n - 1] == SessionOp::Open(p));
                    assert(forall|j: int|
                        n - 1 < j < n ==> (#[trigger] ops[j]) != SessionOp::Remove(p));
                }
            },
            SessionOp::Remove(q) => {
                if q == p {
                    assert(!record_set(ops).contains(p));
                    assert(!(exists|i: int|
                        0 <= i < ops.len() && (#[trigger] ops[i]) == SessionOp::Open(p) && (
                        forall|j: int|
                            i < j < ops.len() ==> (#[trigger] ops[j]) != SessionOp::Remove(p))))
                        by {
                        if exists|i: int|
                            0 <= i < ops.len() && (#[trigger] ops[i]) == SessionOp::Open(p) && (
                            forall|j: int|
                                i < j < ops.len() ==> (#[trigger] ops[j]) != SessionOp::Remove(
                                    p,
                                )) {
                            let i = choose|i: int|
                                0 <= i < ops.len() && (#[trigger] ops[i]) == SessionOp::Open(p)
                                    && (forall|j: int|
                                    i < j < ops.len() ==> (#[trigger] ops[j])
                                        != SessionOp::Remove(p));
                            assert(ops[n - 1] == SessionOp::Remove(p));
                            assert(i < n - 1);
                            assert(false);
                        }
                    }
                }
            },
        }
    }
}

/// Record fidelity for a live session: a mapping is on an active session's
/// record exactly when the session's history opened it at some point and
/// did not remove it afterwards.
pub proof fn lemma_session_record_fidelity(f: Forwarder, p: Port)
    requires
        f.wf(),
        !f.closed,
    ensures
        f.open_ports@.contains(p) <==> exists|i: int|
            0 <= i < f.history@.len() && (#[trigger] f.history@[i]) == SessionOp::Open(p) && (
            forall|j: int|
                i < j < f.history@.len() ==> (#[trigger] f.history@[j]) != SessionOp::Remove(p)),
{
    lemma_record_fidelity(f.history@, p);
    assert(f.open_ports@.contains(p) == f.open_ports@.to_set().contains(p));
}

/// The locate-via-any-interface strategy: try each candidate interface in
/// order, stop at the first success, and keep every failure — callers need
/// the full ordered list to diagnose which interfaces were tried and why
/// each failed.
///
/// The discovery attempt itself is a network call performed by the caller;
/// this type decides which interface to try next and records each outcome.
#[derive(Debug)]
pub struct Locator {
    pub candidates: Vec<Ipv4>,
    pub next: usize,
    pub failures: Vec<SearchFailure>,
    pub found: Option<Ipv4>,
}

impl Locator {
    /// One failure on record per candidate already tried, each attributed
    /// to its candidate in order; a recorded success names the candidate
    /// the search stopped at.
    pub open spec fn wf(self) -> bool {
        &&& self.failures@.len() == self.next
        &&& self.next <= self.candidates@.len()
        &&& forall|k: int|
            0 <= k < self.next ==> (#[trigger] self.failures@[k]).interface == self.candidates@[k]
        &&& match self.found {
            Some(ip) => self.next < self.candidates@.len() && ip
                == self.candidates@[self.next as int],
            None => true,
        }
    }

    /// A fresh search over the given candidate interfaces, in order.
    pub fn new(candidates: Vec<Ipv4>) -> (l: Locator)
        ensures
            l.wf(),
            l.candidates@ == candidates@,
            l.next == 0,
            l.failures@ == Seq::<SearchFailure>::empty(),
            l.found is None,
    {
        let l = Locator { candidates, next: 0, failures: Vec::new(), found: None };
        proof {
            assert(l.failures@ =~= Seq::<SearchFailure>::empty());
        }
        l
    }

    /// The interface discovery should try next: the first candidate not yet
    /// tried — and none at all once a success is on record (first success
    /// short-circuits) or every candidate has failed.
    pub fn pending(&self) -> (r: Option<Ipv4>)
        requires
            self.wf(),
        ensures
            r == (if self.found is None && self.next < self.candidates@.len() {
                Some(self.candidates@[self.next as int])
            } else {
                None::<Ipv4>
            }),
    {
        if self.found.is_none() && self.next < self.candidates.len() {
            Some(self.candidates[self.next])
        } else {
            None
        }
    }

    /// Discovery failed on the pending candidate: record the failure against
    /// that interface and move to the next candidate.
    pub fn on_failure(&mut self, reason: String)
        requires
            old(self).wf(),
            old(self).found is None,
            old(self).next < old(self).candidates@.len(),
        ensures
            final(self).wf(),
            final(self).candidates@ == old(self).candidates@,
            final(self).found is None,
            final(self).next == old(self).next + 1,
            final(self).failures@ == old(self).failures@.push(
                SearchFailure {
                    interface: old(self).candidates@[old(self).next as int],
                    reason,
                },
            ),
    {
        let interface = self.candidates[self.next];
        self.failures.push(SearchFailure { interface, reason });
        let bound = self.candidates.len();
        self.next = self.next + 1;
        proof {
            assert(self.next <= bound);
            assert(forall|k: int|
                0 <= k < self.next - 1 ==> (#[trigger] self.failures@[k]).interface
                    == self.candidates@[k]);
        }
    }

    /// Aggregate failure reporting: a search that ran out of candidates
    /// without a success holds exactly one failure per candidate, each
    /// attributed to its candidate, in candidate order.
    pub proof fn lemma_all_candidates_failed(self)
        requires
            self.wf(),
            self.found is None,
            self.next == self.candidates@.len(),
        ensures
            self.failures@.len() == self.candidates@.len(),
            forall|k: int|
                0 <= k < self.candidates@.len() ==> (#[trigger] self.failures@[k]).interface
                    == self.candidates@[k],
    {
    }

    /// Discovery succeeded on the pending candidate: record it and stop —
    /// no further candidate is ever handed out.
    pub fn on_success(&mut self)
        requires
            old(self).wf(),
            old(self).found is None,
            old(self).next < old(self).candidates@.len(),
        ensures
            final(self).wf(),
            final(self).candidates@ == old(self).candidates@,
            final(self).failures@ == old(self).failures@,
            final(self).next == old(self).next,
            final(self).found == Some(old(self).candidates@[old(self).next as int]),
    {
        self.found = Some(self.candidates[self.next]);
    }
}

/// Removing the only occurrence of a value from a duplicate-free sequence
/// keeps it duplicate-free and removes exactly that value's membership.
proof fn lemma_remove_at_no_dup(s: Seq<Port>, i: int)
    requires
        s.no_duplicates(),
        0 <= i < s.len(),
    ensures
        s.remove(i).no_duplicates(),
        forall|q: Port| #[trigger] s.remove(i).contains(q) <==> (s.contains(q) && q != s[i]),
{
    let t = s.remove(i);
    assert forall|q: Port| #[trigger] t.contains(q) implies (s.contains(q) && q != s[i]) by {
        let k = choose|k: int| 0 <= k < t.len() && t[k] == q;
        if k < i {
            assert(s[k] == q);
        } else {
            assert(s[k + 1] == q);
        }
    }
    assert forall|q: Port| s.contains(q) && q != s[i] implies #[trigger] t.contains(q) by {
        let k = choose|k: int| 0 <= k < s.len() && s[k] == q;
        if k < i {
            assert(t[k] == q);
        } else {
            assert(k > i);
            assert(t[k - 1] == q);
        }
    }
    assert(t.no_duplicates()) by {
        assert forall|x: int, y: int| 0 <= x < y < t.len() implies t[x] != t[y] by {
            if y < i {
            } else if x < i {
                assert(t[x] == s[x]);
                assert(t[y] == s[y + 1]);
            } else {
                assert(t[x] == s[x + 1]);
                assert(t[y] == s[y + 1]);
            }
        }
    }
}

} // verus!
