use crate::wire::component::{ComponentValue, NetComponent};
use vstd::prelude::*;

verus! {

/// One message of the replication protocol.
#[derive(Clone, Debug, PartialEq, Eq)]
pub enum NetMessage {
    /// An entity with this authoritative id now exists.
    NewEnt(u32),
    /// Set or overwrite one component of the entity with this authoritative id.
    InsertComp(u32, NetComponent),
}

/// What a `NetMessage` holds, as a mathematical value.
pub enum MessageValue {
    NewEnt(u32),
    InsertComp(u32, ComponentValue),
}

impl View for NetMessage {
    type V = MessageValue;

    open spec fn view(&self) -> MessageValue {
        match *self {
            NetMessage::NewEnt(id) => MessageValue::NewEnt(id),
            NetMessage::InsertComp(id, component) => MessageValue::InsertComp(id, component@),
        }
    }
}

} // verus!
