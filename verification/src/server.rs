use crate::connection::{ConnectionManager, Connections};
use crate::dispatch::{DeferredWrites, DispatchError, Outcome};
use crate::table::{handle_bound, injective, readable_in};
use crate::wire::component::{ComponentValue, NetComponent};
use crate::wire::message::{MessageValue, NetMessage};
use crate::client::all_issued;
use crate::world::{
    creatable, create_entity, creations_left, handle_pair, issued_handles, live_in,
    overdrawn_slots, slot_generations, slot_readable, world_with, EntityHandle,
};
use specs::world::EntitiesRes;
use vstd::prelude::*;

verus! {

/// Everything the server's inbound dispatch reads and changes, as mathematical values.
pub struct ServerModel {
    pub table: Map<u64, EntityHandle>,
    pub logging_in: Seq<u64>,
    pub world: Map<u32, i32>,
    pub issued: Set<(u32, i32)>,
    pub writes: Seq<(EntityHandle, ComponentValue)>,
}

/// How many first contacts the messages `msgs` hold when the endpoints `bound` are bound
/// beforehand and every first contact binds its endpoint: one for each endpoint outside
/// `bound` that sends a `NewEnt`, however often it sends one.
pub open spec fn first_contacts(bound: Set<u64>, msgs: Seq<(u64, MessageValue)>) -> nat
    decreases msgs.len(),
{
    if msgs.len() == 0 {
        0
    } else if msgs.first().1 is NewEnt && !bound.contains(msgs.first().0) {
        first_contacts(bound.insert(msgs.first().0), msgs.drop_first()) + 1
    } else {
        first_contacts(bound, msgs.drop_first())
    }
}

/// How many times the messages `msgs` knock for an endpoint that `table` does not hold: one
/// for each `NewEnt` from such an endpoint.
pub open spec fn knocks(table: Map<u64, EntityHandle>, msgs: Seq<(u64, MessageValue)>) -> nat
    decreases msgs.len(),
{
    if msgs.len() == 0 {
        0
    } else if msgs.last().1 is NewEnt && !table.contains_key(msgs.last().0) {
        knocks(table, msgs.drop_last()) + 1
    } else {
        knocks(table, msgs.drop_last())
    }
}

/// How many entities the messages `msgs` make a server create. Where the table holds only
/// handles that the world has handed out, every first contact binds, and an endpoint is
/// counted once. Where the table was given a handle that its world never handed out, a first
/// contact can be refused and its endpoint can knock again, and every knock is counted.
pub open spec fn creations_needed(
    table: Map<u64, EntityHandle>,
    issued: Set<(u32, i32)>,
    msgs: Seq<(u64, MessageValue)>,
) -> nat {
    if all_issued(table, issued) {
        first_contacts(table.dom(), msgs)
    } else {
        knocks(table, msgs)
    }
}

/// Whether `outcome` is what a server in state `s` makes of `msg` from the endpoint `addr`.
/// For a component message exactly one outcome is allowed, and so for a `NewEnt` from an
/// endpoint that is bound already. For a first contact the world chooses the handle, among
/// those that it can create, and the state decides whether that handle is bound or refused. A
/// handle is refused only where the table holds a handle that the world never handed out.
pub open spec fn server_allows(
    s: ServerModel,
    addr: u64,
    msg: MessageValue,
    outcome: Outcome,
) -> bool {
    match msg {
        MessageValue::NewEnt(_) => {
            if s.table.contains_key(addr) {
                outcome == (Outcome::Ignored { key: addr })
            } else {
                match outcome {
                    Outcome::Bound { key, handle } => key == addr && creatable(s.issued, handle)
                        && !handle_bound(s.table, handle),
                    Outcome::Refused { key, handle } => key == addr && creatable(
                        s.issued,
                        handle,
                    ) && handle_bound(s.table, handle),
                    _ => false,
                }
            }
        },
        MessageValue::InsertComp(_, _) => {
            if s.table.contains_key(addr) && live_in(s.world, s.table[addr]) {
                outcome == (Outcome::Scheduled { key: addr, target: s.table[addr] })
            } else {
                outcome == (Outcome::Dropped { key: addr, error: DispatchError::UnknownTarget })
            }
        },
    }
}

/// The state of a server after `msg` has had `outcome`.
pub open spec fn server_next(s: ServerModel, msg: MessageValue, outcome: Outcome) -> ServerModel {
    match outcome {
        Outcome::Bound { key, handle } => ServerModel {
            table: s.table.insert(key, handle),
            logging_in: s.logging_in.push(key),
            world: world_with(s.world, handle),
            issued: s.issued.insert(handle_pair(handle)),
            writes: s.writes,
        },
        Outcome::Refused { key, handle } => ServerModel {
            table: s.table,
            logging_in: s.logging_in,
            world: world_with(s.world, handle),
            issued: s.issued.insert(handle_pair(handle)),
            writes: s.writes,
        },
        Outcome::Scheduled { key, target } => match msg {
            MessageValue::InsertComp(_, component) => ServerModel {
                table: s.table,
                logging_in: s.logging_in,
                world: s.world,
                issued: s.issued,
                writes: s.writes.push((target, component)),
            },
            _ => s,
        },
        _ => s,
    }
}

/// The state of a server that started in `s0` after the messages `msgs` have had `outcomes`,
/// one after the other.
pub open spec fn server_after(
    s0: ServerModel,
    msgs: Seq<(u64, MessageValue)>,
    outcomes: Seq<Outcome>,
) -> ServerModel
    decreases msgs.len(),
{
    if msgs.len() == 0 || outcomes.len() != msgs.len() {
        s0
    } else {
        server_next(
            server_after(s0, msgs.drop_last(), outcomes.drop_last()),
            msgs.last().1,
            outcomes.last(),
        )
    }
}

/// Whether `outcomes` are, message by message, what a server that started in `s0` makes of
/// `msgs` when it takes them in order.
pub open spec fn server_trace(
    s0: ServerModel,
    msgs: Seq<(u64, MessageValue)>,
    outcomes: Seq<Outcome>,
) -> bool
    decreases msgs.len(),
{
    msgs.len() == outcomes.len() && (msgs.len() == 0 || (server_trace(
        s0,
        msgs.drop_last(),
        outcomes.drop_last(),
    ) && server_allows(
        server_after(s0, msgs.drop_last(), outcomes.drop_last()),
        msgs.last().0,
        msgs.last().1,
        outcomes.last(),
    )))
}

/// The state that the model of the server's dispatch is in.
pub open spec fn server_model(
    cm: Connections,
    ents: EntitiesRes,
    lu: DeferredWrites,
) -> ServerModel {
    ServerModel {
        table: cm.table,
        logging_in: cm.logging_in,
        world: slot_generations(ents),
        issued: issued_handles(ents),
        writes: lu@,
    }
}

/// The server's inbound dispatch: gives every endpoint that makes first contact an entity,
/// and schedules the components that clients send for their own entities.
pub struct HandleClientPackets;

impl HandleClientPackets {
    /// Schedules `component`, which `addr` has sent, for the entity that `addr` plays, or
    /// drops it when that entity cannot be resolved. If `addr` is bound, the slot of its
    /// entity must be one whose generation the world can tell.
    pub fn insert_component(
        &self,
        cm: &ConnectionManager,
        ents: &EntitiesRes,
        lu: &mut DeferredWrites,
        addr: u64,
        id: u32,
        component: NetComponent,
    ) -> (outcome: Outcome)
        requires
            cm@.table.contains_key(addr) ==> slot_readable(*ents, cm@.table[addr]),
        ensures
            server_allows(
                server_model(cm@, *ents, *old(lu)),
                addr,
                MessageValue::InsertComp(id, component@),
                outcome,
            ),
            server_model(cm@, *ents, *final(lu)) == server_next(
                server_model(cm@, *ents, *old(lu)),
                MessageValue::InsertComp(id, component@),
                outcome,
            ),
    {
        match cm.addr_to_ent().resolve(addr, ents) {
            Some(target) => {
                component.insert(target, lu);
                Outcome::Scheduled { key: addr, target }
            },
            None => Outcome::Dropped { key: addr, error: DispatchError::UnknownTarget },
        }
    }

    /// One tick of inbound dispatch: empties the inbound queue of `cm` and takes its messages
    /// in order. Each has one outcome, reported at its position; none stops those behind it.
    /// The world must have room for the entities of the endpoints that make first contact,
    /// and must be able to tell the generation of the slot of every entity that is played.
    pub fn run(
        &mut self,
        cm: &mut ConnectionManager,
        ents: &mut EntitiesRes,
        lu: &mut DeferredWrites,
    ) -> (outcomes: Vec<Outcome>)
        requires
            old(cm).wf(),
            creations_left(*old(ents)) >= creations_needed(
                old(cm)@.table,
                issued_handles(*old(ents)),
                old(cm)@.inbound,
            ),
            readable_in(old(cm)@.table, *old(ents)),
        ensures
            final(cm).wf(),
            overdrawn_slots(*final(ents)) == overdrawn_slots(*old(ents)),
            readable_in(final(cm)@.table, *final(ents)),
            final(cm)@.inbound.len() == 0,
            final(cm)@.outbound == old(cm)@.outbound,
            server_trace(
                server_model(old(cm)@, *old(ents), *old(lu)),
                old(cm)@.inbound,
                outcomes@,
            ),
            server_model(final(cm)@, *final(ents), *final(lu)) == server_after(
                server_model(old(cm)@, *old(ents), *old(lu)),
                old(cm)@.inbound,
                outcomes@,
            ),
    {
        let ghost s0 = server_model(cm@, *ents, *lu);
        let ghost msgs = cm@.inbound;
        let ghost left0 = creations_left(*ents);
        let ghost table0 = cm@.table;
        let ghost sound0 = all_issued(cm@.table, issued_handles(*ents));
        let ghost overdrawn0 = overdrawn_slots(*ents);
        let mut outcomes: Vec<Outcome> = Vec::new();
        proof {
            assert(msgs.skip(0) =~= msgs);
            if !sound0 {
                assert(msgs.take(0) =~= Seq::<(u64, MessageValue)>::empty());
            }
        }
        let taken = cm.take_inbound();
        for packet in it: taken
            invariant
                cm.wf(),
                cm@.inbound.len() == 0,
                cm@.outbound == old(cm)@.outbound,
                it.seq().map_values(|p: (u64, NetMessage)| (p.0, p.1@)) == msgs,
                outcomes@.len() == it.index(),
                overdrawn_slots(*ents) == overdrawn0,
                readable_in(cm@.table, *ents),
                sound0 ==> all_issued(cm@.table, issued_handles(*ents)),
                sound0 ==> creations_left(*ents) >= first_contacts(
                    cm@.table.dom(),
                    msgs.skip(it.index() as int),
                ),
                !sound0 ==> creations_left(*ents) + knocks(table0, msgs.take(it.index() as int))
                    >= left0,
                !sound0 ==> left0 >= knocks(table0, msgs),
                forall|k: u64| table0.contains_key(k) ==> #[trigger] cm@.table.contains_key(k),
                server_trace(s0, msgs.take(it.index() as int), outcomes@),
                server_model(cm@, *ents, *lu) == server_after(
                    s0,
                    msgs.take(it.index() as int),
                    outcomes@,
                ),
        {
            let ghost i = it.index() as int;
            let ghost before = server_model(cm@, *ents, *lu);
            let ghost seen = outcomes@;
            let (addr, msg) = packet;
            proof {
                assert(msgs[i] == (addr, msg@));
                assert(msgs.take(i + 1).drop_last() =~= msgs.take(i));
                assert(msgs.take(i + 1).last() == (addr, msg@));
                lemma_knocks_prefix(table0, msgs, i + 1);
                assert(msgs.skip(i).first() == (addr, msg@));
                assert(msgs.skip(i).drop_first() =~= msgs.skip(i + 1));
            }
            let ghost table_before = cm@.table;
            let outcome = match msg {
                NetMessage::NewEnt(_) => {
                    if cm.addr_to_ent().is_bound(addr) {
                        Outcome::Ignored { key: addr }
                    } else {
                        let handle = create_entity(ents);
                        proof {
                            if sound0 && handle_bound(table_before, handle) {
                                let k = choose|k: u64|
                                    #[trigger] table_before.contains_key(k) && table_before[k]
                                        == handle;
                                assert(before.issued.contains(handle_pair(table_before[k])));
                            }
                        }
                        cm.first_contact(addr, handle)
                    }
                },
                NetMessage::InsertComp(id, component) => {
                    self.insert_component(cm, ents, lu, addr, id, component)
                },
            };
            outcomes.push(outcome);
            proof {
                assert(msgs[i] == (addr, msg@));
                assert(msgs.take(i + 1).drop_last() =~= msgs.take(i));
                assert(outcomes@.drop_last() =~= seen);
                assert(msgs.take(i + 1).last() == (addr, msg@));
                assert(server_allows(before, addr, msg@, outcome));
                let now = server_model(cm@, *ents, *lu);
                let next = server_next(before, msg@, outcome);
                assert(now.table =~= next.table);
                assert(now.logging_in =~= next.logging_in);
                assert(now.world =~= next.world);
                assert(now.issued =~= next.issued);
                assert(now.writes =~= next.writes);
                assert(table_before.insert(addr, table_before[addr]).dom()
                    =~= table_before.dom().insert(addr));
                if outcome is Bound {
                    assert(cm@.table.dom() =~= table_before.dom().insert(addr));
                }
            }
        }
        proof {
            assert(msgs.take(msgs.len() as int) =~= msgs);
        }
        outcomes
    }
}

/// A prefix of a queue holds no more knocks than the whole queue.
pub proof fn lemma_knocks_prefix(
    table: Map<u64, EntityHandle>,
    msgs: Seq<(u64, MessageValue)>,
    k: int,
)
    requires
        0 <= k <= msgs.len(),
    ensures
        knocks(table, msgs.take(k)) <= knocks(table, msgs),
    decreases msgs.len(),
{
    if k == msgs.len() {
        assert(msgs.take(k) =~= msgs);
    } else {
        assert(msgs.drop_last().take(k) =~= msgs.take(k));
        lemma_knocks_prefix(table, msgs.drop_last(), k);
    }
}

/// Every prefix of a dispatch is itself a dispatch, and the outcome at each position is the one
/// allowed in the state that the messages before it have left.
pub proof fn lemma_server_trace_prefix(
    s0: ServerModel,
    msgs: Seq<(u64, MessageValue)>,
    outcomes: Seq<Outcome>,
    k: int,
)
    requires
        server_trace(s0, msgs, outcomes),
        0 <= k <= msgs.len(),
    ensures
        server_trace(s0, msgs.take(k), outcomes.take(k)),
        k < msgs.len() ==> server_allows(
            server_after(s0, msgs.take(k), outcomes.take(k)),
            msgs[k].0,
            msgs[k].1,
            outcomes[k],
        ),
        k < msgs.len() ==> server_after(s0, msgs.take(k + 1), outcomes.take(k + 1))
            == server_next(
            server_after(s0, msgs.take(k), outcomes.take(k)),
            msgs[k].1,
            outcomes[k],
        ),
    decreases msgs.len(),
{
    if k < msgs.len() {
        assert(msgs.take(k + 1).drop_last() =~= msgs.take(k));
        assert(outcomes.take(k + 1).drop_last() =~= outcomes.take(k));
    }
    if k == msgs.len() {
        assert(msgs.take(k) =~= msgs);
        assert(outcomes.take(k) =~= outcomes);
    } else {
        let n = msgs.len() - 1;
        assert(msgs.drop_last().take(k) =~= msgs.take(k));
        assert(outcomes.drop_last().take(k) =~= outcomes.take(k));
        lemma_server_trace_prefix(s0, msgs.drop_last(), outcomes.drop_last(), k);
        if k == n {
            assert(msgs.take(k) =~= msgs.drop_last());
            assert(outcomes.take(k) =~= outcomes.drop_last());
        }
    }
}

proof fn lemma_server_bindings_stay_injective(
    s0: ServerModel,
    msgs: Seq<(u64, MessageValue)>,
    outcomes: Seq<Outcome>,
)
    requires
        injective(s0.table),
        server_trace(s0, msgs, outcomes),
    ensures
        injective(server_after(s0, msgs, outcomes).table),
    decreases msgs.len(),
{
    if msgs.len() > 0 {
        lemma_server_bindings_stay_injective(s0, msgs.drop_last(), outcomes.drop_last());
        let before = server_after(s0, msgs.drop_last(), outcomes.drop_last());
        match outcomes.last() {
            Outcome::Bound { key, handle } => {
                let after = before.table.insert(key, handle);
                assert forall|a: u64, b: u64|
                    after.contains_key(a) && after.contains_key(b) && after[a]
                        == after[b] implies a == b by {
                    if a != b {
                        if a == key {
                            assert(before.table.contains_key(b) && before.table[b] == handle);
                        } else if b == key {
                            assert(before.table.contains_key(a) && before.table[a] == handle);
                        }
                    }
                }
            },
            _ => {},
        }
    }
}

/// Whatever arrives from whatever endpoints, and whatever handles the world makes for them, at
/// no point of a dispatch are two endpoints bound to the same entity.
pub proof fn law_server_bindings_stay_injective(
    s0: ServerModel,
    msgs: Seq<(u64, MessageValue)>,
    outcomes: Seq<Outcome>,
    k: int,
)
    requires
        injective(s0.table),
        server_trace(s0, msgs, outcomes),
        0 <= k <= msgs.len(),
    ensures
        injective(server_after(s0, msgs.take(k), outcomes.take(k)).table),
{
    lemma_server_trace_prefix(s0, msgs, outcomes, k);
    lemma_server_bindings_stay_injective(s0, msgs.take(k), outcomes.take(k));
}

/// Where every handle in the table is one that the world has handed out, a first contact
/// always binds: the endpoint plays the entity that the world creates for this message, which
/// is none that existed before, and the table still holds only handles that the world handed
/// out.
pub proof fn law_first_contact_binds(s: ServerModel, addr: u64, id: u32, outcome: Outcome)
    requires
        all_issued(s.table, s.issued),
        !s.table.contains_key(addr),
        server_allows(s, addr, MessageValue::NewEnt(id), outcome),
    ensures
        outcome matches Outcome::Bound { key, handle } && key == addr && creatable(
            s.issued,
            handle,
        ) && server_next(s, MessageValue::NewEnt(id), outcome).table == s.table.insert(
            key,
            handle,
        ),
        all_issued(
            server_next(s, MessageValue::NewEnt(id), outcome).table,
            server_next(s, MessageValue::NewEnt(id), outcome).issued,
        ),
{
    match outcome {
        Outcome::Refused { key, handle } => {
            let k = choose|k: u64| #[trigger] s.table.contains_key(k) && s.table[k] == handle;
            assert(s.issued.contains(handle_pair(s.table[k])));
        },
        _ => {},
    }
}

/// A dispatch that starts with a table of handles that the world has handed out refuses
/// nothing, and ends with such a table.
pub proof fn law_no_first_contact_is_refused(
    s0: ServerModel,
    msgs: Seq<(u64, MessageValue)>,
    outcomes: Seq<Outcome>,
)
    requires
        all_issued(s0.table, s0.issued),
        server_trace(s0, msgs, outcomes),
    ensures
        forall|k: int| 0 <= k < outcomes.len() ==> !(#[trigger] outcomes[k] is Refused),
        all_issued(
            server_after(s0, msgs, outcomes).table,
            server_after(s0, msgs, outcomes).issued,
        ),
    decreases msgs.len(),
{
    if msgs.len() > 0 {
        let front = msgs.drop_last();
        let seen = outcomes.drop_last();
        law_no_first_contact_is_refused(s0, front, seen);
        let before = server_after(s0, front, seen);
        match msgs.last().1 {
            MessageValue::NewEnt(id) => {
                if !before.table.contains_key(msgs.last().0) {
                    law_first_contact_binds(before, msgs.last().0, id, outcomes.last());
                }
            },
            MessageValue::InsertComp(_, _) => {},
        }
        assert forall|k: int| 0 <= k < outcomes.len() implies !(#[trigger] outcomes[k]
            is Refused) by {
            if k < seen.len() {
                assert(outcomes[k] == seen[k]);
            }
        }
    }
}

/// A component that comes from an endpoint right behind its first contact is scheduled for
/// the entity that the world has made for that endpoint, and for no other.
pub proof fn law_component_after_first_contact_is_written(
    s: ServerModel,
    addr: u64,
    first: u32,
    id: u32,
    component: ComponentValue,
    handle: EntityHandle,
    second: Outcome,
)
    requires
        server_allows(s, addr, MessageValue::NewEnt(first), Outcome::Bound { key: addr, handle }),
        server_allows(
            server_next(s, MessageValue::NewEnt(first), Outcome::Bound { key: addr, handle }),
            addr,
            MessageValue::InsertComp(id, component),
            second,
        ),
    ensures
        second == (Outcome::Scheduled { key: addr, target: handle }),
{
}

/// The messages of one endpoint are taken in their order: where a component comes from an
/// endpoint right behind its first contact, the contact binds first, and the component is then
/// scheduled for the entity that the world has made for the endpoint.
pub proof fn law_contact_then_component_is_written(
    s0: ServerModel,
    msgs: Seq<(u64, MessageValue)>,
    outcomes: Seq<Outcome>,
    k: int,
    addr: u64,
    first: u32,
    id: u32,
    component: ComponentValue,
)
    requires
        all_issued(s0.table, s0.issued),
        server_trace(s0, msgs, outcomes),
        0 <= k,
        k + 1 < msgs.len(),
        msgs[k] == (addr, MessageValue::NewEnt(first)),
        msgs[k + 1] == (addr, MessageValue::InsertComp(id, component)),
        !server_after(s0, msgs.take(k), outcomes.take(k)).table.contains_key(addr),
    ensures
        outcomes[k] matches Outcome::Bound { key, handle } && key == addr && outcomes[k + 1]
            == (Outcome::Scheduled { key: addr, target: handle }),
{
    lemma_server_trace_prefix(s0, msgs, outcomes, k);
    lemma_server_trace_prefix(s0, msgs, outcomes, k + 1);
    let before = server_after(s0, msgs.take(k), outcomes.take(k));
    law_no_first_contact_is_refused(s0, msgs.take(k), outcomes.take(k));
    law_first_contact_binds(before, addr, first, outcomes[k]);
    let handle = outcomes[k]->Bound_handle;
    law_component_after_first_contact_is_written(
        before,
        addr,
        first,
        id,
        component,
        handle,
        outcomes[k + 1],
    );
}

/// Once an endpoint is bound, no message that arrives binds it to anything else: the entity
/// it plays is the same for as long as the connection lasts.
pub proof fn law_binding_is_stable(
    s0: ServerModel,
    msgs: Seq<(u64, MessageValue)>,
    outcomes: Seq<Outcome>,
    addr: u64,
)
    requires
        s0.table.contains_key(addr),
        server_trace(s0, msgs, outcomes),
    ensures
        server_after(s0, msgs, outcomes).table.contains_key(addr),
        server_after(s0, msgs, outcomes).table[addr] == s0.table[addr],
    decreases msgs.len(),
{
    if msgs.len() > 0 {
        law_binding_is_stable(s0, msgs.drop_last(), outcomes.drop_last(), addr);
    }
}

/// A component from an endpoint whose entity is unknown or dead is dropped and reported, and
/// changes nothing; a component that is scheduled goes to the sender's own living entity,
/// whatever id the message names.
pub proof fn law_insert_reaches_only_the_senders_entity(
    s: ServerModel,
    addr: u64,
    id: u32,
    component: ComponentValue,
    outcome: Outcome,
)
    requires
        server_allows(s, addr, MessageValue::InsertComp(id, component), outcome),
    ensures
        match outcome {
            Outcome::Scheduled { key, target } => key == addr && s.table.contains_key(addr)
                && target == s.table[addr] && live_in(s.world, target),
            Outcome::Dropped { key, error } => key == addr && error
                == DispatchError::UnknownTarget && server_next(
                s,
                MessageValue::InsertComp(id, component),
                outcome,
            ) == s,
            _ => false,
        },
{
}

} // verus!
