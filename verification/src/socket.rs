use vstd::prelude::*;

verus! {

/// Model of the one listening socket every worker accepts from. The kernel
/// queues each arriving connection once; `accept` is the atomic take from
/// that queue, so the queue itself is the mutual exclusion between workers.
/// Connections and workers are carried as opaque tokens.
pub struct SharedSocket {
    /// Connections the kernel has queued and no worker has taken, in
    /// arrival order.
    pub pending: Vec<u64>,
    /// Every accepted connection with the worker that took it, in
    /// acceptance order.
    pub accepted: Vec<(u64, u64)>,
    /// Every connection that ever arrived, in arrival order.
    pub arrived: Ghost<Seq<u64>>,
}

pub open spec fn accepted_conns(s: SharedSocket) -> Seq<u64> {
    s.accepted@.map_values(|a: (u64, u64)| a.0)
}

/// No connection is queued twice, none is both queued and accepted, no two
/// accept records name the same connection, and what arrived is exactly
/// what was accepted, in order, followed by what is still queued.
pub open spec fn socket_wf(s: SharedSocket) -> bool {
    &&& forall|i: int, j: int| 0 <= i < j < s.pending@.len() ==> s.pending@[i] != s.pending@[j]
    &&& forall|i: int, j: int|
        0 <= i < s.pending@.len() && 0 <= j < s.accepted@.len() ==> s.pending@[i]
            != s.accepted@[j].0
    &&& forall|i: int, j: int|
        0 <= i < j < s.accepted@.len() ==> s.accepted@[i].0 != s.accepted@[j].0
    &&& s.arrived@ == accepted_conns(s) + s.pending@
}

impl SharedSocket {
    /// A socket bound and put into listening state, before anything arrives.
    pub fn bind() -> (r: SharedSocket)
        ensures
            socket_wf(r),
            r.pending@.len() == 0,
            r.accepted@.len() == 0,
            r.arrived@ == Seq::<u64>::empty(),
    {
        let r = SharedSocket { pending: Vec::new(), accepted: Vec::new(), arrived: Ghost(Seq::empty()) };
        proof {
            assert(r.arrived@ =~= accepted_conns(r) + r.pending@);
        }
        r
    }

    /// The kernel queues a connection it has not seen before.
    pub fn arrive(&mut self, conn: u64)
        requires
            socket_wf(*old(self)),
            forall|i: int| 0 <= i < old(self).pending@.len() ==> old(self).pending@[i] != conn,
            forall|i: int|
                0 <= i < old(self).accepted@.len() ==> old(self).accepted@[i].0 != conn,
        ensures
            socket_wf(*final(self)),
            final(self).pending@ == old(self).pending@.push(conn),
            final(self).accepted@ == old(self).accepted@,
            final(self).arrived@ == old(self).arrived@.push(conn),
    {
        self.pending.push(conn);
        proof {
            self.arrived@ = old(self).arrived@.push(conn);
            assert(self.arrived@ =~= accepted_conns(*self) + self.pending@);
        }
    }

    /// One worker takes the oldest queued connection, if any. Taking removes
    /// it from the queue, so no other worker can ever take it again.
    pub fn accept(&mut self, worker: u64) -> (r: Option<u64>)
        requires
            socket_wf(*old(self)),
        ensures
            socket_wf(*final(self)),
            final(self).arrived@ == old(self).arrived@,
            r is None <==> old(self).pending@.len() == 0,
            r is None ==> *final(self) == *old(self),
            r matches Some(c) ==> c == old(self).pending@[0] && final(self).pending@ == old(
                self,
            ).pending@.drop_first() && final(self).accepted@ == old(self).accepted@.push(
                (c, worker),
            ),
    {
        if self.pending.len() == 0 {
            None
        } else {
            let c = self.pending.remove(0);
            proof {
                assert(self.pending@ =~= old(self).pending@.drop_first());
            }
            self.accepted.push((c, worker));
            proof {
                assert(accepted_conns(*self) =~= accepted_conns(*old(self)).push(c));
                assert(self.arrived@ =~= accepted_conns(*self) + self.pending@);
            }
            Some(c)
        }
    }
}

/// Concurrent accept correctness, exclusivity half: however many workers
/// interleave their accepts, no two accept records name one connection —
/// a connection is never handled by two workers.
pub proof fn theorem_accept_exclusive(s: SharedSocket, i: int, j: int)
    requires
        socket_wf(s),
        0 <= i < s.accepted@.len(),
        0 <= j < s.accepted@.len(),
        s.accepted@[i].0 == s.accepted@[j].0,
    ensures
        i == j,
        s.accepted@[i].1 == s.accepted@[j].1,
{
}

/// Concurrent accept correctness, coverage half: once the queue is drained,
/// the accept records cover every connection that ever arrived, in arrival
/// order — with the exclusivity half, each of the K arrived connections was
/// handled by exactly one worker.
pub proof fn theorem_accept_coverage(s: SharedSocket)
    requires
        socket_wf(s),
        s.pending@.len() == 0,
    ensures
        s.accepted@.len() == s.arrived@.len(),
        forall|i: int| 0 <= i < s.arrived@.len() ==> s.accepted@[i].0 == s.arrived@[i],
{
    assert(accepted_conns(s) + s.pending@ =~= accepted_conns(s));
    assert forall|i: int| 0 <= i < s.arrived@.len() implies s.accepted@[i].0 == s.arrived@[i] by {
        assert(accepted_conns(s)[i] == s.accepted@[i].0);
    }
}

} // verus!
