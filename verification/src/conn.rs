use vstd::prelude::*;

use crate::pattern::views_of;
use crate::types::SendError;

verus! {

/// The token that addresses one open connection from outside its own request
/// flow. A slot index alone would dangle once the slot is reused; pairing it
/// with the slot's generation makes a stale token fail instead.
#[derive(Clone, Copy, PartialEq, Eq, Structural, Debug)]
pub struct ConnectionIdentity {
    pub index: usize,
    pub generation: u64,
}

/// One arena slot: which generation of connection occupies it, whether that
/// connection is still open, and its pending outbound messages in send
/// order.
pub struct Slot {
    pub generation: u64,
    pub live: bool,
    pub outbound: Vec<Vec<u8>>,
}

/// The arena of connection slots, indexed by generation-checked identities.
pub struct ConnectionRegistry {
    pub slots: Vec<Slot>,
}

/// The identity addresses a connection that is still open.
pub open spec fn live_spec(r: ConnectionRegistry, id: ConnectionIdentity) -> bool {
    &&& (id.index as int) < r.slots@.len()
    &&& r.slots@[id.index as int].generation == id.generation
    &&& r.slots@[id.index as int].live
}

/// The queued outbound messages of slot `i`, oldest first.
pub open spec fn outbound_at(r: ConnectionRegistry, i: int) -> Seq<Seq<u8>> {
    views_of(r.slots@[i].outbound@)
}

impl ConnectionRegistry {
    pub fn new() -> (r: ConnectionRegistry)
        ensures
            r.slots@.len() == 0,
            forall|id: ConnectionIdentity| !live_spec(r, id),
    {
        ConnectionRegistry { slots: Vec::new() }
    }

    /// Admits a newly accepted connection: reuses a dead slot under a fresh
    /// generation when one is available, else grows the arena. The returned
    /// identity is live, was not live before, starts with no outbound
    /// messages, and every other identity keeps its standing.
    pub fn open_connection(&mut self) -> (id: ConnectionIdentity)
        ensures
            live_spec(*final(self), id),
            !live_spec(*old(self), id),
            (id.index as int) < final(self).slots@.len(),
            outbound_at(*final(self), id.index as int) == Seq::<Seq<u8>>::empty(),
            forall|other: ConnectionIdentity|
                other != id ==> (live_spec(*final(self), other) <==> live_spec(
                    *old(self),
                    other,
                )),
            forall|j: int|
                0 <= j < old(self).slots@.len() && j != id.index ==> final(self).slots@[j] == old(
                    self,
                ).slots@[j],
    {
        let mut k: usize = 0;
        let mut reusable: Option<usize> = None;
        while k < self.slots.len()
            invariant
                reusable matches Some(i) ==> (i as int) < self.slots@.len()
                    && !self.slots@[i as int].live && self.slots@[i as int].generation
                    < u64::MAX,
            decreases self.slots.len() - k,
        {
            if reusable.is_none() && !self.slots[k].live && self.slots[k].generation < u64::MAX {
                reusable = Some(k);
            }
            k = k + 1;
        }
        match reusable {
            Some(i) => {
                let s = self.slots.remove(i);
                let g = s.generation + 1;
                self.slots.insert(i, Slot { generation: g, live: true, outbound: Vec::new() });
                proof {
                    assert(self.slots@ =~= old(self).slots@.update(
                        i as int,
                        self.slots@[i as int],
                    ));
                    assert(views_of(self.slots@[i as int].outbound@) =~= Seq::<Seq<u8>>::empty());
                }
                ConnectionIdentity { index: i, generation: g }
            },
            None => {
                let i = self.slots.len();
                self.slots.push(Slot { generation: 0, live: true, outbound: Vec::new() });
                proof {
                    assert(views_of(self.slots@[i as int].outbound@) =~= Seq::<Seq<u8>>::empty());
                }
                ConnectionIdentity { index: i, generation: 0 }
            },
        }
    }

    /// Closes the connection an identity addresses. Closing an identity that
    /// is already gone fails with `ConnectionClosed` and changes nothing;
    /// every other identity keeps its standing either way.
    pub fn close(&mut self, id: ConnectionIdentity) -> (r: Result<(), SendError>)
        ensures
            r is Ok <==> live_spec(*old(self), id),
            r is Err ==> *final(self) == *old(self),
            r matches Err(err) ==> err == SendError::ConnectionClosed,
            !live_spec(*final(self), id),
            forall|other: ConnectionIdentity|
                other != id ==> (live_spec(*final(self), other) <==> live_spec(
                    *old(self),
                    other,
                )),
            r is Ok ==> final(self).slots@.len() == old(self).slots@.len() && (forall|j: int|
                0 <= j < old(self).slots@.len() && j != id.index ==> final(self).slots@[j] == old(
                    self,
                ).slots@[j]) && final(self).slots@[id.index as int].generation == id.generation
                && !final(self).slots@[id.index as int].live,
    {
        if id.index < self.slots.len() && self.slots[id.index].live && self.slots[id.index].generation
            == id.generation {
            let mut s = self.slots.remove(id.index);
            s.live = false;
            self.slots.insert(id.index, s);
            proof {
                assert(self.slots@ =~= old(self).slots@.update(
                    id.index as int,
                    self.slots@[id.index as int],
                ));
            }
            Ok(())
        } else {
            Err(SendError::ConnectionClosed)
        }
    }

    /// Queues one outbound message for the connection an identity addresses,
    /// behind whatever is already queued for it: per-connection sends stay
    /// serialized, in order. Sending to a closed or stale identity fails
    /// with `ConnectionClosed` and affects nothing — no other connection's
    /// queue moves either way.
    pub fn send(&mut self, id: ConnectionIdentity, msg: Vec<u8>) -> (r: Result<(), SendError>)
        ensures
            r is Ok <==> live_spec(*old(self), id),
            r is Err ==> *final(self) == *old(self),
            r matches Err(err) ==> err == SendError::ConnectionClosed,
            r is Ok ==> final(self).slots@.len() == old(self).slots@.len() && (forall|j: int|
                0 <= j < old(self).slots@.len() && j != id.index ==> final(self).slots@[j] == old(
                    self,
                ).slots@[j]) && outbound_at(*final(self), id.index as int) == outbound_at(
                *old(self),
                id.index as int,
            ).push(msg@) && live_spec(*final(self), id)
                && final(self).slots@[id.index as int].generation == id.generation,
    {
        if id.index < self.slots.len() && self.slots[id.index].live && self.slots[id.index].generation
            == id.generation {
            let mut s = self.slots.remove(id.index);
            let ghost outs = views_of(s.outbound@);
            s.outbound.push(msg);
            proof {
                assert(views_of(s.outbound@) =~= outs.push(s.outbound@.last()@));
            }
            self.slots.insert(id.index, s);
            proof {
                assert(self.slots@ =~= old(self).slots@.update(
                    id.index as int,
                    self.slots@[id.index as int],
                ));
            }
            Ok(())
        } else {
            Err(SendError::ConnectionClosed)
        }
    }

    /// Drains the queued outbound messages of the connection an identity
    /// addresses, in the order they were sent; fails with `ConnectionClosed`
    /// for an identity that is gone.
    pub fn take_outbound(&mut self, id: ConnectionIdentity) -> (r: Result<Vec<Vec<u8>>, SendError>)
        ensures
            r is Ok <==> live_spec(*old(self), id),
            r is Err ==> *final(self) == *old(self),
            r matches Err(err) ==> err == SendError::ConnectionClosed,
            r matches Ok(v) ==> views_of(v@) == outbound_at(*old(self), id.index as int)
                && final(self).slots@.len() == old(self).slots@.len() && (forall|j: int|
                0 <= j < old(self).slots@.len() && j != id.index ==> final(self).slots@[j] == old(
                    self,
                ).slots@[j]) && outbound_at(*final(self), id.index as int) == Seq::<
                Seq<u8>,
            >::empty() && live_spec(*final(self), id),
    {
        if id.index < self.slots.len() && self.slots[id.index].live && self.slots[id.index].generation
            == id.generation {
            let mut s = self.slots.remove(id.index);
            let out = s.outbound;
            s.outbound = Vec::new();
            proof {
                assert(views_of(s.outbound@) =~= Seq::<Seq<u8>>::empty());
            }
            self.slots.insert(id.index, s);
            proof {
                assert(self.slots@ =~= old(self).slots@.update(
                    id.index as int,
                    self.slots@[id.index as int],
                ));
            }
            Ok(out)
        } else {
            Err(SendError::ConnectionClosed)
        }
    }

    /// Whether an identity still addresses an open connection.
    pub fn is_live(&self, id: ConnectionIdentity) -> (r: bool)
        ensures
            r <==> live_spec(*self, id),
    {
        id.index < self.slots.len() && self.slots[id.index].live && self.slots[id.index].generation
            == id.generation
    }
}

} // verus!
