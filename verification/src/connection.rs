use crate::dispatch::Outcome;
use crate::table::{handle_bound, injective, BindError, IdentityTable};
use crate::wire::codec::{
    decode, encode_insert_comp, encode_new_ent, message_bytes, parse_message, DecodeError,
};
use crate::wire::component::NetComponent;
use crate::wire::message::{MessageValue, NetMessage};
use crate::world::EntityHandle;
use vstd::prelude::*;
use vstd::std_specs::convert::IntoSpec;

verus! {

/// An endpoint and a frame to be sent to it.
#[derive(Clone, Debug, PartialEq, Eq)]
pub struct OutboundFrame {
    pub endpoint: u64,
    pub bytes: Vec<u8>,
}

impl View for OutboundFrame {
    type V = (u64, Seq<u8>);

    open spec fn view(&self) -> (u64, Seq<u8>) {
        (self.endpoint, self.bytes@)
    }
}

/// What a connection manager holds, as mathematical values.
pub struct Connections {
    /// The entity of each endpoint that has made first contact.
    pub table: Map<u64, EntityHandle>,
    /// The endpoints that have made first contact and not been welcomed yet, oldest first.
    pub logging_in: Seq<u64>,
    /// The messages that have arrived and not been dispatched yet, oldest first.
    pub inbound: Seq<(u64, MessageValue)>,
    /// The frames that wait to be sent, oldest first. The frames of one endpoint, in this
    /// order, are that endpoint's outbound stream.
    pub outbound: Seq<(u64, Seq<u8>)>,
}

/// `v` with the frame of `m` added to the outbound stream of `addr`, or `v` itself if `addr`
/// has no open connection.
pub open spec fn announced(v: Connections, addr: u64, m: MessageValue) -> Connections {
    if v.table.contains_key(addr) {
        Connections {
            table: v.table,
            logging_in: v.logging_in,
            inbound: v.inbound,
            outbound: v.outbound.push((addr, message_bytes(m))),
        }
    } else {
        v
    }
}

/// `pending` without `addr`, in the same order.
pub open spec fn without(pending: Seq<u64>, addr: u64) -> Seq<u64> {
    if pending.contains(addr) {
        pending.remove(pending.index_of(addr))
    } else {
        pending
    }
}

/// The server's connections: which entity each endpoint plays, what has arrived from the
/// endpoints, and what is to be sent to them. The network side feeds `receive` and empties
/// `take_outbound`; the simulation side does everything else.
pub struct ConnectionManager {
    addr_to_ent: IdentityTable,
    logging_in: Vec<u64>,
    from_clients: Vec<(u64, NetMessage)>,
    outbound: Vec<OutboundFrame>,
}

impl View for ConnectionManager {
    type V = Connections;

    closed spec fn view(&self) -> Connections {
        Connections {
            table: self.addr_to_ent@,
            logging_in: self.logging_in@,
            inbound: self.from_clients@.map_values(|p: (u64, NetMessage)| (p.0, p.1@)),
            outbound: self.outbound@.map_values(|f: OutboundFrame| f@),
        }
    }
}

impl ConnectionManager {
    pub closed spec fn table_wf(&self) -> bool {
        self.addr_to_ent.wf()
    }

    /// The table is sound, and the endpoints that wait for their welcome are bound and are
    /// each listed once.
    pub open spec fn wf(&self) -> bool {
        &&& self.table_wf()
        &&& forall|i: int|
            0 <= i < self@.logging_in.len() ==> self@.table.contains_key(
                #[trigger] self@.logging_in[i],
            )
        &&& self@.logging_in.no_duplicates()
    }

    /// No two endpoints of a well-formed manager play the same entity.
    pub proof fn lemma_wf_injective(&self)
        requires
            self.wf(),
        ensures
            injective(self@.table),
    {
        self.addr_to_ent.lemma_wf_injective();
    }

    pub fn new() -> (cm: Self)
        ensures
            cm.wf(),
            cm@.table == Map::<u64, EntityHandle>::empty(),
            cm@.logging_in.len() == 0,
            cm@.inbound.len() == 0,
            cm@.outbound.len() == 0,
    {
        ConnectionManager {
            addr_to_ent: IdentityTable::new(),
            logging_in: Vec::new(),
            from_clients: Vec::new(),
            outbound: Vec::new(),
        }
    }

    /// The translation table from endpoints to the entities they play.
    pub fn addr_to_ent(&self) -> (table: &IdentityTable)
        ensures
            table@ == self@.table,
            self.table_wf() ==> table.wf(),
    {
        &self.addr_to_ent
    }

    /// Queues a message that has arrived from `addr`.
    pub fn receive(&mut self, addr: u64, msg: NetMessage)
        requires
            old(self).wf(),
        ensures
            final(self).wf(),
            final(self)@ == (Connections {
                inbound: old(self)@.inbound.push((addr, msg@)),
                ..old(self)@
            }),
    {
        self.from_clients.push((addr, msg));
        proof {
            assert(self@.inbound =~= old(self)@.inbound.push((addr, msg@)));
        }
    }

    /// Takes in a frame that has arrived from `addr`: queues the message it carries, or says
    /// why it carries none and leaves the queue as it was.
    pub fn receive_frame(&mut self, addr: u64, frame: &[u8]) -> (outcome: Result<(), DecodeError>)
        requires
            old(self).wf(),
        ensures
            final(self).wf(),
            match parse_message(frame@) {
                Ok(m) => outcome is Ok && final(self)@ == (Connections {
                    inbound: old(self)@.inbound.push((addr, m)),
                    ..old(self)@
                }),
                Err(e) => outcome == Err::<(), DecodeError>(e) && final(self)@ == old(self)@,
            },
    {
        match decode(frame) {
            Ok(msg) => {
                self.receive(addr, msg);
                Ok(())
            },
            Err(e) => Err(e),
        }
    }

    /// How many messages have arrived and wait to be dispatched.
    pub fn inbound_len(&self) -> (n: usize)
        ensures
            n == self@.inbound.len(),
    {
        self.from_clients.len()
    }

    /// Whether `addr` has made first contact and still waits for its welcome.
    pub fn is_logging_in(&self, addr: u64) -> (waiting: bool)
        ensures
            waiting == self@.logging_in.contains(addr),
    {
        let mut i: usize = 0;
        while i < self.logging_in.len()
            invariant
                0 <= i <= self.logging_in@.len(),
                forall|j: int| 0 <= j < i ==> self.logging_in@[j] != addr,
            decreases self.logging_in@.len() - i,
        {
            if self.logging_in[i] == addr {
                return true;
            }
            i = i + 1;
        }
        false
    }

    /// Hands over everything that has arrived, oldest first, and leaves the queue empty.
    pub(crate) fn take_inbound(&mut self) -> (msgs: Vec<(u64, NetMessage)>)
        requires
            old(self).wf(),
        ensures
            final(self).wf(),
            msgs@.map_values(|p: (u64, NetMessage)| (p.0, p.1@)) == old(self)@.inbound,
            final(self)@ == (Connections {
                inbound: Seq::<(u64, MessageValue)>::empty(),
                ..old(self)@
            }),
    {
        let mut taken: Vec<(u64, NetMessage)> = Vec::new();
        std::mem::swap(&mut self.from_clients, &mut taken);
        proof {
            assert(self@.inbound =~= Seq::<(u64, MessageValue)>::empty());
        }
        taken
    }

    /// Hands over every frame that waits to be sent, oldest first, and leaves none waiting.
    pub fn take_outbound(&mut self) -> (frames: Vec<OutboundFrame>)
        requires
            old(self).wf(),
        ensures
            final(self).wf(),
            frames@.map_values(|f: OutboundFrame| f@) == old(self)@.outbound,
            final(self)@ == (Connections {
                outbound: Seq::<(u64, Seq<u8>)>::empty(),
                ..old(self)@
            }),
    {
        let mut taken: Vec<OutboundFrame> = Vec::new();
        std::mem::swap(&mut self.outbound, &mut taken);
        proof {
            assert(self@.outbound =~= Seq::<(u64, Seq<u8>)>::empty());
        }
        taken
    }

    /// Records the first contact of `addr`, for which the world has just made `handle`: binds
    /// the two and marks the endpoint as logging in. An endpoint that is bound already, or a
    /// handle that another endpoint plays, changes nothing.
    pub fn first_contact(&mut self, addr: u64, handle: EntityHandle) -> (outcome: Outcome)
        requires
            old(self).wf(),
        ensures
            final(self).wf(),
            outcome == if old(self)@.table.contains_key(addr) {
                Outcome::Ignored { key: addr }
            } else if handle_bound(old(self)@.table, handle) {
                Outcome::Refused { key: addr, handle }
            } else {
                Outcome::Bound { key: addr, handle }
            },
            final(self)@ == if outcome is Bound {
                Connections {
                    table: old(self)@.table.insert(addr, handle),
                    logging_in: old(self)@.logging_in.push(addr),
                    ..old(self)@
                }
            } else {
                old(self)@
            },
    {
        match self.addr_to_ent.bind(addr, handle) {
            Ok(()) => {
                proof {
                    assert(!old(self)@.logging_in.contains(addr));
                }
                self.logging_in.push(addr);
                proof {
                    assert forall|i: int|
                        0 <= i < self@.logging_in.len() implies self@.table.contains_key(
                        #[trigger] self@.logging_in[i],
                    ) by {
                        if i < old(self)@.logging_in.len() {
                            assert(old(self)@.table.contains_key(old(self)@.logging_in[i]));
                        }
                    }
                    assert(self@.logging_in.no_duplicates()) by {
                        assert forall|i: int, j: int|
                            0 <= i < self@.logging_in.len() && 0 <= j < self@.logging_in.len()
                                && i != j implies self@.logging_in[i] != self@.logging_in[j] by {
                            if i < old(self)@.logging_in.len() {
                                assert(old(self)@.logging_in.contains(old(self)@.logging_in[i]));
                            }
                            if j < old(self)@.logging_in.len() {
                                assert(old(self)@.logging_in.contains(old(self)@.logging_in[j]));
                            }
                        }
                    }
                }
                Outcome::Bound { key: addr, handle }
            },
            Err(BindError::KeyBound) => Outcome::Ignored { key: addr },
            Err(BindError::HandleBound) => Outcome::Refused { key: addr, handle },
        }
    }

    /// Hands over the endpoints that wait for their welcome, oldest first, and takes the
    /// mark from each of them.
    pub(crate) fn take_logging_in(&mut self) -> (pending: Vec<u64>)
        requires
            old(self).wf(),
        ensures
            final(self).wf(),
            pending@ == old(self)@.logging_in,
            final(self)@ == (Connections { logging_in: Seq::<u64>::empty(), ..old(self)@ }),
    {
        let mut taken: Vec<u64> = Vec::new();
        std::mem::swap(&mut self.logging_in, &mut taken);
        taken
    }

    /// Announces to `addr` that the entity `ent` exists. Returns whether the frame was queued:
    /// an endpoint without an open connection is told nothing.
    pub fn new_ent(&mut self, addr: u64, ent: EntityHandle) -> (queued: bool)
        requires
            old(self).wf(),
        ensures
            final(self).wf(),
            queued == old(self)@.table.contains_key(addr),
            final(self)@ == announced(
                old(self)@,
                addr,
                MessageValue::NewEnt(ent.authoritative_id()),
            ),
    {
        if !self.addr_to_ent.is_bound(addr) {
            return false;
        }
        let bytes = encode_new_ent(ent.authoritative_id());
        self.outbound.push(OutboundFrame { endpoint: addr, bytes });
        proof {
            assert(self@.outbound =~= old(self)@.outbound.push(
                (addr, message_bytes(MessageValue::NewEnt(ent.authoritative_id()))),
            ));
        }
        true
    }

    /// Announces to `addr` that the entity `ent` has the component `component`. Returns
    /// whether the frame was queued: an endpoint without an open connection is told nothing.
    pub fn announce_component(
        &mut self,
        addr: u64,
        ent: EntityHandle,
        component: &NetComponent,
    ) -> (queued: bool)
        requires
            old(self).wf(),
        ensures
            final(self).wf(),
            queued == old(self)@.table.contains_key(addr),
            final(self)@ == announced(
                old(self)@,
                addr,
                MessageValue::InsertComp(ent.authoritative_id(), component@),
            ),
    {
        if !self.addr_to_ent.is_bound(addr) {
            return false;
        }
        let bytes = encode_insert_comp(ent.authoritative_id(), component);
        self.outbound.push(OutboundFrame { endpoint: addr, bytes });
        proof {
            assert(self@.outbound =~= old(self)@.outbound.push(
                (
                    addr,
                    message_bytes(MessageValue::InsertComp(ent.authoritative_id(), component@)),
                ),
            ));
        }
        true
    }

    /// Announces to `addr` that the entity `ent` has the component `comp`, which may be given
    /// as any of the component types, or as anything else that converts into a component.
    /// What is announced is the component that the conversion returns. Returns whether the
    /// frame was queued.
    pub fn insert_comp<C: Into<NetComponent>>(
        &mut self,
        addr: u64,
        ent: EntityHandle,
        comp: C,
    ) -> (queued: bool)
        requires
            old(self).wf(),
        ensures
            final(self).wf(),
            queued == old(self)@.table.contains_key(addr),
            exists|c: NetComponent| #[trigger]
                call_ensures(C::into, (comp,), c) && final(self)@ == announced(
                    old(self)@,
                    addr,
                    MessageValue::InsertComp(ent.authoritative_id(), c@),
                ),
            C::obeys_into_spec() ==> final(self)@ == announced(
                old(self)@,
                addr,
                MessageValue::InsertComp(ent.authoritative_id(), comp.into_spec()@),
            ),
    {
        let component: NetComponent = comp.into();
        proof {
            assert(call_ensures(C::into, (comp,), component));
        }
        self.announce_component(addr, ent, &component)
    }

    /// Closes the connection of `addr`: forgets the entity it played and, if it still waited
    /// for its welcome, takes the mark from it. What was queued for it earlier stays queued.
    pub fn disconnect(&mut self, addr: u64) -> (played: Option<EntityHandle>)
        requires
            old(self).wf(),
        ensures
            final(self).wf(),
            played == if old(self)@.table.contains_key(addr) {
                Some(old(self)@.table[addr])
            } else {
                None
            },
            final(self)@ == (Connections {
                table: old(self)@.table.remove(addr),
                logging_in: without(old(self)@.logging_in, addr),
                ..old(self)@
            }),
    {
        let played = self.addr_to_ent.unbind(addr);
        let mut i: usize = 0;
        while i < self.logging_in.len()
            invariant
                old(self).wf(),
                played == if old(self)@.table.contains_key(addr) {
                    Some(old(self)@.table[addr])
                } else {
                    None
                },
                0 <= i <= self.logging_in@.len(),
                self.logging_in@ == old(self).logging_in@,
                self.addr_to_ent@ == old(self).addr_to_ent@.remove(addr),
                self.addr_to_ent.wf(),
                self.from_clients == old(self).from_clients,
                self.outbound == old(self).outbound,
                forall|j: int| 0 <= j < i ==> self.logging_in@[j] != addr,
            decreases self.logging_in@.len() - i,
        {
            if self.logging_in[i] == addr {
                proof {
                    lemma_without_keeps_the_others(old(self)@.logging_in, addr);
                    assert(old(self)@.logging_in.contains(addr));
                }
                self.logging_in.remove(i);
                proof {
                    assert(self@.logging_in == without(old(self)@.logging_in, addr));
                    assert forall|j: int|
                        0 <= j < self@.logging_in.len() implies self@.table.contains_key(
                        #[trigger] self@.logging_in[j],
                    ) by {
                        assert(self@.logging_in.contains(self@.logging_in[j]));
                        let k = choose|k: int|
                            0 <= k < old(self)@.logging_in.len() && old(self)@.logging_in[k]
                                == self@.logging_in[j];
                        assert(old(self)@.table.contains_key(old(self)@.logging_in[k]));
                    }
                }
                return played;
            }
            i = i + 1;
        }
        proof {
            assert(!old(self)@.logging_in.contains(addr));
            assert forall|j: int| 0 <= j < self@.logging_in.len() implies self@.table.contains_key(
                #[trigger] self@.logging_in[j],
            ) by {
                assert(old(self)@.table.contains_key(old(self)@.logging_in[j]));
            }
        }
        played
    }
}

/// Taking one endpoint out of a list in which nothing occurs twice leaves the others, once each
/// and in their order.
pub proof fn lemma_without_keeps_the_others(pending: Seq<u64>, addr: u64)
    requires
        pending.no_duplicates(),
    ensures
        without(pending, addr).no_duplicates(),
        forall|a: u64| without(pending, addr).contains(a) <==> (pending.contains(a) && a != addr),
        forall|i: int|
            0 <= i < pending.len() && pending[i] == addr ==> without(pending, addr)
                == pending.remove(i),
{
    let rest = without(pending, addr);
    if pending.contains(addr) {
        let at = pending.index_of(addr);
        assert forall|a: u64| rest.contains(a) <==> (pending.contains(a) && a != addr) by {
            if rest.contains(a) {
                let i = choose|i: int| 0 <= i < rest.len() && rest[i] == a;
                if i < at {
                    assert(pending[i] == a);
                } else {
                    assert(pending[i + 1] == a);
                }
            }
            if pending.contains(a) && a != addr {
                let i = choose|i: int| 0 <= i < pending.len() && pending[i] == a;
                if i < at {
                    assert(rest[i] == a);
                } else {
                    assert(rest[i - 1] == a);
                }
            }
        }
    } else {
        assert forall|a: u64| rest.contains(a) <==> (pending.contains(a) && a != addr) by {}
    }
}

impl Default for ConnectionManager {
    fn default() -> (cm: Self)
        ensures
            cm.wf(),
            cm@.table == Map::<u64, EntityHandle>::empty(),
            cm@.logging_in.len() == 0,
            cm@.inbound.len() == 0,
            cm@.outbound.len() == 0,
    {
        ConnectionManager::new()
    }
}

} // verus!
