use crate::wire::codec::{decode, encode, message_bytes, parse_message, DecodeError};
use crate::wire::component::NetComponent;
use crate::wire::message::{MessageValue, NetMessage};
use vstd::prelude::*;
use vstd::std_specs::convert::IntoSpec;

verus! {

/// The authoritative id that a client writes into the messages it sends. A client can only
/// ask for components on its own entity, and the server knows which entity that is.
pub const SELF_ID: u32 = 0;

/// What a server connection holds, as mathematical values.
pub struct ServerLink {
    /// The messages that have arrived from the server and not been dispatched yet.
    pub inbound: Seq<MessageValue>,
    /// The frames that wait to be sent to the server.
    pub outbound: Seq<Seq<u8>>,
}

/// A client's connection to its server: the messages that have arrived, and the frames that
/// are to be sent. The network side feeds `receive_frame` and empties `take_outbound`.
pub struct ServerConnection {
    message_queue: Vec<NetMessage>,
    outbound: Vec<Vec<u8>>,
}

impl View for ServerConnection {
    type V = ServerLink;

    closed spec fn view(&self) -> ServerLink {
        ServerLink {
            inbound: self.message_queue@.map_values(|m: NetMessage| m@),
            outbound: self.outbound@.map_values(|f: Vec<u8>| f@),
        }
    }
}

impl ServerConnection {
    pub fn new() -> (sc: Self)
        ensures
            sc@.inbound.len() == 0,
            sc@.outbound.len() == 0,
    {
        ServerConnection { message_queue: Vec::new(), outbound: Vec::new() }
    }

    /// The queue of the messages that have arrived, oldest first, for a dispatch to empty.
    pub fn message_queue(&mut self) -> (queue: &mut Vec<NetMessage>)
        ensures
            queue@.map_values(|m: NetMessage| m@) == old(self)@.inbound,
            final(self)@ == (ServerLink {
                inbound: final(queue)@.map_values(|m: NetMessage| m@),
                ..old(self)@
            }),
    {
        &mut self.message_queue
    }

    /// Queues the frame of `msg` to be sent to the server.
    pub fn send(&mut self, msg: NetMessage)
        ensures
            final(self)@ == (ServerLink {
                outbound: old(self)@.outbound.push(message_bytes(msg@)),
                ..old(self)@
            }),
    {
        let frame = encode(&msg);
        self.outbound.push(frame);
        proof {
            assert(self@.outbound =~= old(self)@.outbound.push(message_bytes(msg@)));
        }
    }

    /// Asks the server to put `comp` on this client's own entity. `comp` may be given as any
    /// of the component types, or as anything else that converts into a component; what is
    /// asked for is the component that the conversion returns.
    pub fn insert_comp<C: Into<NetComponent>>(&mut self, comp: C)
        ensures
            exists|c: NetComponent| #[trigger]
                call_ensures(C::into, (comp,), c) && final(self)@ == (ServerLink {
                    outbound: old(self)@.outbound.push(
                        message_bytes(MessageValue::InsertComp(SELF_ID, c@)),
                    ),
                    ..old(self)@
                }),
            C::obeys_into_spec() ==> final(self)@ == (ServerLink {
                outbound: old(self)@.outbound.push(
                    message_bytes(MessageValue::InsertComp(SELF_ID, comp.into_spec()@)),
                ),
                ..old(self)@
            }),
    {
        let component: NetComponent = comp.into();
        proof {
            assert(call_ensures(C::into, (comp,), component));
        }
        self.send(NetMessage::InsertComp(SELF_ID, component));
    }

    /// Takes in a frame that has arrived from the server: queues the message it carries, or
    /// says why it carries none and leaves the queue as it was.
    pub fn receive_frame(&mut self, frame: &[u8]) -> (outcome: Result<(), DecodeError>)
        ensures
            match parse_message(frame@) {
                Ok(m) => outcome is Ok && final(self)@ == (ServerLink {
                    inbound: old(self)@.inbound.push(m),
                    ..old(self)@
                }),
                Err(e) => outcome == Err::<(), DecodeError>(e) && final(self)@ == old(self)@,
            },
    {
        match decode(frame) {
            Ok(msg) => {
                self.message_queue.push(msg);
                proof {
                    assert(self@.inbound =~= old(self)@.inbound.push(msg@));
                }
                Ok(())
            },
            Err(e) => Err(e),
        }
    }

    /// Hands over every frame that waits to be sent, oldest first, and leaves none waiting.
    pub fn take_outbound(&mut self) -> (frames: Vec<Vec<u8>>)
        ensures
            frames@.map_values(|f: Vec<u8>| f@) == old(self)@.outbound,
            final(self)@ == (ServerLink {
                outbound: Seq::<Seq<u8>>::empty(),
                ..old(self)@
            }),
    {
        let mut taken: Vec<Vec<u8>> = Vec::new();
        std::mem::swap(&mut self.outbound, &mut taken);
        proof {
            assert(self@.outbound =~= Seq::<Seq<u8>>::empty());
        }
        taken
    }
}

impl Default for ServerConnection {
    fn default() -> (sc: Self)
        ensures
            sc@.inbound.len() == 0,
            sc@.outbound.len() == 0,
    {
        ServerConnection::new()
    }
}

} // verus!
