use crate::dispatch::{DeferredWrites, DispatchError, Outcome};
use crate::table::{held_by_other, injective, readable_in, IdentityTable};
use crate::wire::component::{ComponentValue, NetComponent};
use crate::wire::message::{MessageValue, NetMessage};
use crate::world::{
    creatable, create_entity, creations_left, handle_pair, is_alive, issued_handles, live_in,
    overdrawn_slots, slot_generations, slot_readable, world_with, EntityHandle,
};
use specs::world::EntitiesRes;
use vstd::prelude::*;

verus! {

/// Everything a client's inbound dispatch reads and changes, as mathematical values: the
/// translation table, the generation of every slot of the world, the entities that the world
/// has handed out, and the scheduled writes.
pub struct ClientModel {
    pub table: Map<u64, EntityHandle>,
    pub world: Map<u32, i32>,
    pub issued: Set<(u32, i32)>,
    pub writes: Seq<(EntityHandle, ComponentValue)>,
}

/// Whether every handle that `table` holds is one that the world has handed out.
pub open spec fn all_issued(table: Map<u64, EntityHandle>, issued: Set<(u32, i32)>) -> bool {
    forall|k: u64| #[trigger] table.contains_key(k) ==> issued.contains(handle_pair(table[k]))
}

/// How many entities the messages `msgs` make a client create: one for each `NewEnt`.
pub open spec fn new_entities(msgs: Seq<MessageValue>) -> nat
    decreases msgs.len(),
{
    if msgs.len() == 0 {
        0
    } else if msgs.last() is NewEnt {
        new_entities(msgs.drop_last()) + 1
    } else {
        new_entities(msgs.drop_last())
    }
}

/// Whether `outcome` is what a client in state `s` makes of `msg`. For a component message
/// exactly one outcome is allowed. For `NewEnt` the world chooses the handle, among those
/// that it can create, and the state decides whether that handle is bound or refused. A
/// handle is refused only where the table holds a handle that the world never handed out.
pub open spec fn client_allows(s: ClientModel, msg: MessageValue, outcome: Outcome) -> bool {
    match msg {
        MessageValue::NewEnt(id) => match outcome {
            Outcome::Bound { key, handle } => key == id as u64 && creatable(s.issued, handle)
                && !held_by_other(s.table, key, handle),
            Outcome::Refused { key, handle } => key == id as u64 && creatable(s.issued, handle)
                && held_by_other(s.table, key, handle),
            _ => false,
        },
        MessageValue::InsertComp(id, _) => {
            let key = id as u64;
            if !s.table.contains_key(key) {
                outcome == (Outcome::Dropped { key, error: DispatchError::UnknownId })
            } else if !live_in(s.world, s.table[key]) {
                outcome == (Outcome::Dropped { key, error: DispatchError::DeadEntity })
            } else {
                outcome == (Outcome::Scheduled { key, target: s.table[key] })
            }
        },
    }
}

/// The state of a client after `msg` has had `outcome`.
pub open spec fn client_next(s: ClientModel, msg: MessageValue, outcome: Outcome) -> ClientModel {
    match outcome {
        Outcome::Bound { key, handle } => ClientModel {
            table: s.table.insert(key, handle),
            world: world_with(s.world, handle),
            issued: s.issued.insert(handle_pair(handle)),
            writes: s.writes,
        },
        Outcome::Refused { key, handle } => ClientModel {
            table: s.table,
            world: world_with(s.world, handle),
            issued: s.issued.insert(handle_pair(handle)),
            writes: s.writes,
        },
        Outcome::Scheduled { key, target } => match msg {
            MessageValue::InsertComp(_, component) => ClientModel {
                table: s.table,
                world: s.world,
                issued: s.issued,
                writes: s.writes.push((target, component)),
            },
            _ => s,
        },
        _ => s,
    }
}

/// The state of a client that started in `s0` after the messages `msgs` have had `outcomes`,
/// one after the other.
pub open spec fn client_after(
    s0: ClientModel,
    msgs: Seq<MessageValue>,
    outcomes: Seq<Outcome>,
) -> ClientModel
    decreases msgs.len(),
{
    if msgs.len() == 0 || outcomes.len() != msgs.len() {
        s0
    } else {
        client_next(
            client_after(s0, msgs.drop_last(), outcomes.drop_last()),
            msgs.last(),
            outcomes.last(),
        )
    }
}

/// Whether `outcomes` are, message by message, what a client that started in `s0` makes of
/// `msgs` when it takes them in order.
pub open spec fn client_trace(
    s0: ClientModel,
    msgs: Seq<MessageValue>,
    outcomes: Seq<Outcome>,
) -> bool
    decreases msgs.len(),
{
    msgs.len() == outcomes.len() && (msgs.len() == 0 || (client_trace(
        s0,
        msgs.drop_last(),
        outcomes.drop_last(),
    ) && client_allows(
        client_after(s0, msgs.drop_last(), outcomes.drop_last()),
        msgs.last(),
        outcomes.last(),
    )))
}

/// The messages of a queue as mathematical values, oldest first.
pub open spec fn message_values(queue: Seq<NetMessage>) -> Seq<MessageValue> {
    queue.map_values(|m: NetMessage| m@)
}

/// What one tick of a client's dispatch does. `queue` is what the inbound queue held if the
/// tick could acquire it, and `None` if the queue was held elsewhere. A tick without the queue
/// changes nothing and reports nothing. A tick with the queue takes every message in order
/// and leaves the queue empty.
pub open spec fn client_tick(
    before: ClientModel,
    queue: Option<Seq<MessageValue>>,
    outcomes: Seq<Outcome>,
    after: ClientModel,
    left: Option<Seq<MessageValue>>,
) -> bool {
    match queue {
        None => outcomes.len() == 0 && after == before && left is None,
        Some(msgs) => client_trace(before, msgs, outcomes) && after == client_after(
            before,
            msgs,
            outcomes,
        ) && left == Some(Seq::<MessageValue>::empty()),
    }
}

/// The client's inbound dispatch: turns the server's messages into local entities, bindings
/// and scheduled component writes.
pub struct HandleServerPackets {
    pub server_to_local_ids: IdentityTable,
}

impl HandleServerPackets {
    pub open spec fn wf(&self) -> bool {
        self.server_to_local_ids.wf()
    }

    /// The state that the model of this dispatch starts from.
    pub open spec fn model(
        &self,
        ents: EntitiesRes,
        lu: DeferredWrites,
    ) -> ClientModel {
        ClientModel {
            table: self.server_to_local_ids@,
            world: slot_generations(ents),
            issued: issued_handles(ents),
            writes: lu@,
        }
    }

    pub fn new() -> (system: Self)
        ensures
            system.wf(),
            system.server_to_local_ids@ == Map::<u64, EntityHandle>::empty(),
    {
        HandleServerPackets { server_to_local_ids: IdentityTable::new() }
    }

    /// Records that the authoritative id `server` now stands for the entity `local`, which
    /// the world has just made for it.
    pub fn bind_new_entity(&mut self, server: u32, local: EntityHandle) -> (outcome: Outcome)
        requires
            old(self).wf(),
        ensures
            final(self).wf(),
            outcome == if held_by_other(old(self).server_to_local_ids@, server as u64, local) {
                Outcome::Refused { key: server as u64, handle: local }
            } else {
                Outcome::Bound { key: server as u64, handle: local }
            },
            final(self).server_to_local_ids@ == if held_by_other(
                old(self).server_to_local_ids@,
                server as u64,
                local,
            ) {
                old(self).server_to_local_ids@
            } else {
                old(self).server_to_local_ids@.insert(server as u64, local)
            },
    {
        match self.server_to_local_ids.bind_overwrite(server as u64, local) {
            Ok(()) => Outcome::Bound { key: server as u64, handle: local },
            Err(_) => Outcome::Refused { key: server as u64, handle: local },
        }
    }

    /// Schedules `component` for the local entity that `server` stands for, or drops it when
    /// that entity is unknown or dead. If `server` is bound, the slot of its entity must be
    /// one whose generation the world can tell.
    pub fn insert_component(
        &self,
        ents: &EntitiesRes,
        lu: &mut DeferredWrites,
        server: u32,
        component: NetComponent,
    ) -> (outcome: Outcome)
        requires
            self.server_to_local_ids@.contains_key(server as u64) ==> slot_readable(
                *ents,
                self.server_to_local_ids@[server as u64],
            ),
        ensures
            client_allows(
                self.model(*ents, *old(lu)),
                MessageValue::InsertComp(server, component@),
                outcome,
            ),
            self.model(*ents, *final(lu)) == client_next(
                self.model(*ents, *old(lu)),
                MessageValue::InsertComp(server, component@),
                outcome,
            ),
    {
        let key: u64 = server as u64;
        match self.server_to_local_ids.lookup(key) {
            None => Outcome::Dropped { key, error: DispatchError::UnknownId },
            Some(target) => {
                if is_alive(ents, target) {
                    component.insert(target, lu);
                    Outcome::Scheduled { key, target }
                } else {
                    Outcome::Dropped { key, error: DispatchError::DeadEntity }
                }
            },
        }
    }

    /// One tick of inbound dispatch. `queue` is the inbound queue if it could be acquired
    /// without waiting, and `None` if it is held elsewhere: then this tick does nothing, and the
    /// queue waits for the next one. An acquired queue is emptied, and its messages are taken
    /// in order; each has one outcome, reported at its position. The world must have room for
    /// the entities that the queue announces, and must be able to tell the generation of the
    /// slot of every entity that is bound.
    pub fn run(
        &mut self,
        ents: &mut EntitiesRes,
        lu: &mut DeferredWrites,
        queue: Option<&mut Vec<NetMessage>>,
    ) -> (outcomes: Vec<Outcome>)
        requires
            old(self).wf(),
            match queue {
                Some(q) => creations_left(*old(ents)) >= new_entities(message_values(q@))
                    && readable_in(old(self).server_to_local_ids@, *old(ents)),
                None => true,
            },
        ensures
            final(self).wf(),
            overdrawn_slots(*final(ents)) == overdrawn_slots(*old(ents)),
            readable_in(old(self).server_to_local_ids@, *old(ents)) ==> readable_in(
                final(self).server_to_local_ids@,
                *final(ents),
            ),
            queue is None ==> *final(ents) == *old(ents),
            client_tick(
                old(self).model(*old(ents), *old(lu)),
                match queue {
                    Some(q) => Some(message_values(q@)),
                    None => None,
                },
                outcomes@,
                final(self).model(*final(ents), *final(lu)),
                match queue {
                    Some(q) => Some(message_values(final(q)@)),
                    None => None,
                },
            ),
    {
        let mut outcomes: Vec<Outcome> = Vec::new();
        match queue {
            None => {},
            Some(q) => {
                let ghost s0 = self.model(*ents, *lu);
                let ghost msgs = message_values(q@);
                let ghost left0 = creations_left(*ents);
                let ghost overdrawn0 = overdrawn_slots(*ents);
                let mut taken: Vec<NetMessage> = Vec::new();
                std::mem::swap(q, &mut taken);
                for msg in it: taken
                    invariant
                        self.wf(),
                        overdrawn_slots(*ents) == overdrawn0,
                        readable_in(self.server_to_local_ids@, *ents),
                        it.seq().map_values(|m: NetMessage| m@) == msgs,
                        outcomes@.len() == it.index(),
                        creations_left(*ents) + new_entities(msgs.take(it.index() as int))
                            >= left0,
                        left0 >= new_entities(msgs),
                        client_trace(s0, msgs.take(it.index() as int), outcomes@),
                        self.model(*ents, *lu) == client_after(
                            s0,
                            msgs.take(it.index() as int),
                            outcomes@,
                        ),
                {
                    let ghost i = it.index() as int;
                    let ghost before = self.model(*ents, *lu);
                    let ghost seen = outcomes@;
                    proof {
                        assert(msgs[i] == msg@);
                        assert(msgs.take(i + 1).drop_last() =~= msgs.take(i));
                        assert(msgs.take(i + 1).last() == msg@);
                        lemma_new_entities_prefix(msgs, i + 1);
                    }
                    let outcome = match msg {
                        NetMessage::NewEnt(server) => {
                            let local = create_entity(ents);
                            self.bind_new_entity(server, local)
                        },
                        NetMessage::InsertComp(server, component) => {
                            self.insert_component(ents, lu, server, component)
                        },
                    };
                    outcomes.push(outcome);
                    proof {
                        assert(msgs[i] == msg@);
                        assert(msgs.take(i + 1).drop_last() =~= msgs.take(i));
                        assert(outcomes@.drop_last() =~= seen);
                        assert(msgs.take(i + 1).last() == msg@);
                        assert(client_allows(before, msg@, outcome));
                        assert(self.model(*ents, *lu).table =~= client_next(
                            before,
                            msg@,
                            outcome,
                        ).table);
                        assert(self.model(*ents, *lu).world =~= client_next(
                            before,
                            msg@,
                            outcome,
                        ).world);
                        assert(self.model(*ents, *lu).issued =~= client_next(
                            before,
                            msg@,
                            outcome,
                        ).issued);
                        assert(self.model(*ents, *lu).writes =~= client_next(
                            before,
                            msg@,
                            outcome,
                        ).writes);
                    }
                }
                proof {
                    assert(msgs.take(msgs.len() as int) =~= msgs);
                    assert(message_values(q@) =~= Seq::<MessageValue>::empty());
                }
            },
        }
        outcomes
    }
}

/// A prefix of a queue announces no more entities than the whole queue.
pub proof fn lemma_new_entities_prefix(msgs: Seq<MessageValue>, k: int)
    requires
        0 <= k <= msgs.len(),
    ensures
        new_entities(msgs.take(k)) <= new_entities(msgs),
    decreases msgs.len(),
{
    if k == msgs.len() {
        assert(msgs.take(k) =~= msgs);
    } else {
        assert(msgs.drop_last().take(k) =~= msgs.take(k));
        lemma_new_entities_prefix(msgs.drop_last(), k);
    }
}

/// Every prefix of a dispatch is itself a dispatch, and the outcome at each position is the one
/// allowed in the state that the messages before it have left.
pub proof fn lemma_client_trace_prefix(
    s0: ClientModel,
    msgs: Seq<MessageValue>,
    outcomes: Seq<Outcome>,
    k: int,
)
    requires
        client_trace(s0, msgs, outcomes),
        0 <= k <= msgs.len(),
    ensures
        client_trace(s0, msgs.take(k), outcomes.take(k)),
        k < msgs.len() ==> client_allows(
            client_after(s0, msgs.take(k), outcomes.take(k)),
            msgs[k],
            outcomes[k],
        ),
        k < msgs.len() ==> client_after(s0, msgs.take(k + 1), outcomes.take(k + 1))
            == client_next(
            client_after(s0, msgs.take(k), outcomes.take(k)),
            msgs[k],
            outcomes[k],
        ),
    decreases msgs.len(),
{
    if k < msgs.len() {
        assert(msgs.take(k + 1).drop_last() =~= msgs.take(k));
        assert(outcomes.take(k + 1).drop_last() =~= outcomes.take(k));
    }
    if k == msgs.len() {
        assert(msgs.take(k) =~= msgs);
        assert(outcomes.take(k) =~= outcomes);
    } else {
        let n = msgs.len() - 1;
        assert(msgs.drop_last().take(k) =~= msgs.take(k));
        assert(outcomes.drop_last().take(k) =~= outcomes.take(k));
        lemma_client_trace_prefix(s0, msgs.drop_last(), outcomes.drop_last(), k);
        if k == n {
            assert(msgs.take(k) =~= msgs.drop_last());
            assert(outcomes.take(k) =~= outcomes.drop_last());
        }
    }
}

/// Only `NewEnt` binds: a key that is bound after a dispatch was bound before it or was
/// announced by one of its messages.
pub proof fn lemma_client_bindings_come_from_new_entity(
    s0: ClientModel,
    msgs: Seq<MessageValue>,
    outcomes: Seq<Outcome>,
    key: u64,
)
    requires
        client_trace(s0, msgs, outcomes),
        client_after(s0, msgs, outcomes).table.contains_key(key),
    ensures
        s0.table.contains_key(key) || exists|j: int, id: u32|
            0 <= j < msgs.len() && msgs[j] == MessageValue::NewEnt(id) && id as u64 == key,
    decreases msgs.len(),
{
    if msgs.len() > 0 {
        let front = msgs.drop_last();
        let before = client_after(s0, front, outcomes.drop_last());
        if before.table.contains_key(key) {
            lemma_client_bindings_come_from_new_entity(s0, front, outcomes.drop_last(), key);
            if !s0.table.contains_key(key) {
                let (j, id) = choose|j: int, id: u32|
                    0 <= j < front.len() && front[j] == MessageValue::NewEnt(id) && id as u64
                        == key;
                assert(msgs[j] == MessageValue::NewEnt(id));
            }
        } else {
            match msgs.last() {
                MessageValue::NewEnt(id) => {
                    assert(msgs[msgs.len() - 1] == MessageValue::NewEnt(id));
                    assert(id as u64 == key);
                },
                MessageValue::InsertComp(_, _) => {},
            }
        }
    }
}

/// A component that arrives for an authoritative id before any `NewEnt` has announced that id
/// is dropped and reported as unknown. It schedules no write, for that entity or any other.
pub proof fn law_insert_before_new_entity_is_dropped(
    s0: ClientModel,
    msgs: Seq<MessageValue>,
    outcomes: Seq<Outcome>,
    k: int,
    id: u32,
    component: ComponentValue,
)
    requires
        client_trace(s0, msgs, outcomes),
        0 <= k < msgs.len(),
        msgs[k] == MessageValue::InsertComp(id, component),
        !s0.table.contains_key(id as u64),
        forall|j: int| 0 <= j < k ==> msgs[j] != MessageValue::NewEnt(id),
    ensures
        outcomes[k] == (Outcome::Dropped { key: id as u64, error: DispatchError::UnknownId }),
        client_after(s0, msgs.take(k + 1), outcomes.take(k + 1)).writes == client_after(
            s0,
            msgs.take(k),
            outcomes.take(k),
        ).writes,
{
    lemma_client_trace_prefix(s0, msgs, outcomes, k);
    let before = client_after(s0, msgs.take(k), outcomes.take(k));
    if before.table.contains_key(id as u64) {
        lemma_client_bindings_come_from_new_entity(s0, msgs.take(k), outcomes.take(k), id as u64);
        let (j, other) = choose|j: int, other: u32|
            0 <= j < msgs.take(k).len() && msgs.take(k)[j] == MessageValue::NewEnt(other)
                && other as u64 == id as u64;
        assert(msgs[j] == MessageValue::NewEnt(id));
    }
    assert(msgs.take(k + 1).drop_last() =~= msgs.take(k));
    assert(outcomes.take(k + 1).drop_last() =~= outcomes.take(k));
}

proof fn lemma_client_bindings_stay_injective(
    s0: ClientModel,
    msgs: Seq<MessageValue>,
    outcomes: Seq<Outcome>,
)
    requires
        injective(s0.table),
        client_trace(s0, msgs, outcomes),
    ensures
        injective(client_after(s0, msgs, outcomes).table),
    decreases msgs.len(),
{
    if msgs.len() > 0 {
        lemma_client_bindings_stay_injective(s0, msgs.drop_last(), outcomes.drop_last());
        let before = client_after(s0, msgs.drop_last(), outcomes.drop_last());
        match outcomes.last() {
            Outcome::Bound { key, handle } => {
                let after = before.table.insert(key, handle);
                assert forall|a: u64, b: u64|
                    after.contains_key(a) && after.contains_key(b) && after[a]
                        == after[b] implies a == b by {
                    if a != b {
                        if a == key {
                            assert(before.table.contains_key(b) && before.table[b] == handle);
                        } else if b == key {
                            assert(before.table.contains_key(a) && before.table[a] == handle);
                        }
                    }
                }
            },
            _ => {},
        }
    }
}

/// However many entities are announced, and whatever handles the world makes for them, at no
/// point of a dispatch do two authoritative ids stand for the same local entity.
pub proof fn law_client_bindings_stay_injective(
    s0: ClientModel,
    msgs: Seq<MessageValue>,
    outcomes: Seq<Outcome>,
    k: int,
)
    requires
        injective(s0.table),
        client_trace(s0, msgs, outcomes),
        0 <= k <= msgs.len(),
    ensures
        injective(client_after(s0, msgs.take(k), outcomes.take(k)).table),
{
    lemma_client_trace_prefix(s0, msgs, outcomes, k);
    lemma_client_bindings_stay_injective(s0, msgs.take(k), outcomes.take(k));
}

/// Where every handle in the table is one that the world has handed out, a `NewEnt` always
/// binds: its id stands for the entity that the world creates for this message, which is none
/// that existed before, and the table still holds only handles that the world handed out.
pub proof fn law_new_entity_binds(s: ClientModel, id: u32, outcome: Outcome)
    requires
        all_issued(s.table, s.issued),
        client_allows(s, MessageValue::NewEnt(id), outcome),
    ensures
        outcome matches Outcome::Bound { key, handle } && key == id as u64 && creatable(
            s.issued,
            handle,
        ) && client_next(s, MessageValue::NewEnt(id), outcome).table == s.table.insert(
            key,
            handle,
        ),
        all_issued(
            client_next(s, MessageValue::NewEnt(id), outcome).table,
            client_next(s, MessageValue::NewEnt(id), outcome).issued,
        ),
{
    match outcome {
        Outcome::Refused { key, handle } => {
            let k = choose|k: u64|
                k != key && #[trigger] s.table.contains_key(k) && s.table[k] == handle;
            assert(s.issued.contains(handle_pair(s.table[k])));
        },
        _ => {},
    }
}

/// A dispatch that starts with a table of handles that the world has handed out refuses
/// nothing, and ends with such a table.
pub proof fn law_no_new_entity_is_refused(
    s0: ClientModel,
    msgs: Seq<MessageValue>,
    outcomes: Seq<Outcome>,
)
    requires
        all_issued(s0.table, s0.issued),
        client_trace(s0, msgs, outcomes),
    ensures
        forall|k: int| 0 <= k < outcomes.len() ==> !(#[trigger] outcomes[k] is Refused),
        all_issued(
            client_after(s0, msgs, outcomes).table,
            client_after(s0, msgs, outcomes).issued,
        ),
    decreases msgs.len(),
{
    if msgs.len() > 0 {
        let front = msgs.drop_last();
        let seen = outcomes.drop_last();
        law_no_new_entity_is_refused(s0, front, seen);
        let before = client_after(s0, front, seen);
        match msgs.last() {
            MessageValue::NewEnt(id) => {
                law_new_entity_binds(before, id, outcomes.last());
            },
            MessageValue::InsertComp(_, _) => {},
        }
        assert forall|k: int| 0 <= k < outcomes.len() implies !(#[trigger] outcomes[k]
            is Refused) by {
            if k < seen.len() {
                assert(outcomes[k] == seen[k]);
            }
        }
    }
}

/// A component that comes right behind the `NewEnt` of its entity is scheduled for the entity
/// that the world has made for that `NewEnt`, and for no other.
pub proof fn law_component_after_new_entity_is_written(
    s: ClientModel,
    id: u32,
    component: ComponentValue,
    handle: EntityHandle,
    second: Outcome,
)
    requires
        client_allows(s, MessageValue::NewEnt(id), Outcome::Bound { key: id as u64, handle }),
        client_allows(
            client_next(s, MessageValue::NewEnt(id), Outcome::Bound { key: id as u64, handle }),
            MessageValue::InsertComp(id, component),
            second,
        ),
    ensures
        second == (Outcome::Scheduled { key: id as u64, target: handle }),
{
}

/// The messages of a queue are taken in their order: where a component comes right behind
/// the `NewEnt` of its entity, the `NewEnt` binds first, and the component is then scheduled
/// for the entity that the world has made for it.
pub proof fn law_announced_then_described_is_written(
    s0: ClientModel,
    msgs: Seq<MessageValue>,
    outcomes: Seq<Outcome>,
    k: int,
    id: u32,
    component: ComponentValue,
)
    requires
        all_issued(s0.table, s0.issued),
        client_trace(s0, msgs, outcomes),
        0 <= k,
        k + 1 < msgs.len(),
        msgs[k] == MessageValue::NewEnt(id),
        msgs[k + 1] == MessageValue::InsertComp(id, component),
    ensures
        outcomes[k] matches Outcome::Bound { key, handle } && key == id as u64 && outcomes[k + 1]
            == (Outcome::Scheduled { key: id as u64, target: handle }),
{
    lemma_client_trace_prefix(s0, msgs, outcomes, k);
    lemma_client_trace_prefix(s0, msgs, outcomes, k + 1);
    let before = client_after(s0, msgs.take(k), outcomes.take(k));
    law_no_new_entity_is_refused(s0, msgs.take(k), outcomes.take(k));
    law_new_entity_binds(before, id, outcomes[k]);
    let handle = outcomes[k]->Bound_handle;
    law_component_after_new_entity_is_written(before, id, component, handle, outcomes[k + 1]);
}

/// A write is only ever scheduled for the very entity that the message's id is bound to, and
/// only while that entity lives.
pub proof fn law_write_reaches_the_bound_living_entity(
    s: ClientModel,
    id: u32,
    component: ComponentValue,
    key: u64,
    target: EntityHandle,
)
    requires
        client_allows(
            s,
            MessageValue::InsertComp(id, component),
            Outcome::Scheduled { key, target },
        ),
    ensures
        key == id as u64,
        s.table.contains_key(key),
        target == s.table[key],
        live_in(s.world, target),
{
}

/// A component for an id whose local entity has died since it was bound is dropped and
/// reported, and changes nothing. Whatever entity occupies the dead one's slot by then is
/// another entity and gets no write.
pub proof fn law_dead_entity_insert_is_dropped(
    s: ClientModel,
    id: u32,
    component: ComponentValue,
    outcome: Outcome,
    occupant: EntityHandle,
)
    requires
        s.table.contains_key(id as u64),
        !live_in(s.world, s.table[id as u64]),
        client_allows(s, MessageValue::InsertComp(id, component), outcome),
        live_in(s.world, occupant),
        occupant.index == s.table[id as u64].index,
    ensures
        outcome == (Outcome::Dropped { key: id as u64, error: DispatchError::DeadEntity }),
        client_next(s, MessageValue::InsertComp(id, component), outcome) == s,
        occupant != s.table[id as u64],
{
}

/// A tick that finds the queue held elsewhere changes nothing, and what was queued then is not
/// lost: the next tick that acquires the queue takes those messages first and in order, before
/// whatever has `arrived` since, and makes of them what a tick from the untouched state makes.
pub proof fn law_skipped_tick_loses_nothing(
    s0: ClientModel,
    queued: Seq<MessageValue>,
    arrived: Seq<MessageValue>,
    skipped: Seq<Outcome>,
    s1: ClientModel,
    outcomes: Seq<Outcome>,
    s2: ClientModel,
)
    requires
        client_tick(s0, None, skipped, s1, None),
        client_tick(s1, Some(queued + arrived), outcomes, s2, Some(Seq::<MessageValue>::empty())),
    ensures
        skipped.len() == 0,
        s1 == s0,
        outcomes.len() == queued.len() + arrived.len(),
        client_trace(s0, queued, outcomes.take(queued.len() as int)),
        s2 == client_after(s0, queued + arrived, outcomes),
{
    lemma_client_trace_prefix(s0, queued + arrived, outcomes, queued.len() as int);
    assert((queued + arrived).take(queued.len() as int) =~= queued);
}

impl Default for HandleServerPackets {
    fn default() -> (system: Self)
        ensures
            system.wf(),
            system.server_to_local_ids@ == Map::<u64, EntityHandle>::empty(),
    {
        HandleServerPackets::new()
    }
}

} // verus!
