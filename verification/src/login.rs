use crate::connection::{ConnectionManager, Connections};
use crate::wire::codec::message_bytes;
use crate::wire::component::{
    Appearance, Camera, ComponentValue, NetComponent, SimplePosition,
};
use crate::wire::message::MessageValue;
use crate::world::EntityHandle;
use vstd::prelude::*;

verus! {

/// What a newcomer is told of one living entity: how it looks if it has a look, and where it
/// is if it has a place.
#[derive(Clone, Debug, PartialEq, Eq)]
pub struct WorldEntity {
    pub handle: EntityHandle,
    pub position: Option<SimplePosition>,
    pub appearance: Option<Appearance>,
}

/// What a `WorldEntity` holds, as a mathematical value.
pub struct WorldEntityValue {
    pub handle: EntityHandle,
    pub position: Option<SimplePosition>,
    pub appearance: Option<Seq<char>>,
}

impl View for WorldEntity {
    type V = WorldEntityValue;

    open spec fn view(&self) -> WorldEntityValue {
        WorldEntityValue {
            handle: self.handle,
            position: self.position,
            appearance: match self.appearance {
                Some(a) => Some(a@),
                None => None,
            },
        }
    }
}

/// The entities of a world as mathematical values, in the world's order.
pub open spec fn world_values(world: Seq<WorldEntity>) -> Seq<WorldEntityValue> {
    world.map_values(|e: WorldEntity| e@)
}

/// What tells how an entity looks: nothing for an entity without a look.
pub open spec fn look_messages(e: WorldEntityValue) -> Seq<MessageValue> {
    match e.appearance {
        Some(path) => seq![
            MessageValue::InsertComp(
                e.handle.authoritative_id(),
                ComponentValue::Appearance(path),
            ),
        ],
        None => Seq::empty(),
    }
}

/// What tells where an entity is: nothing for an entity without a place.
pub open spec fn place_messages(e: WorldEntityValue) -> Seq<MessageValue> {
    match e.position {
        Some(position) => seq![
            MessageValue::InsertComp(
                e.handle.authoritative_id(),
                ComponentValue::SimplePosition(position),
            ),
        ],
        None => Seq::empty(),
    }
}

/// What announces one entity: first that it exists, then how it looks, then where it is.
pub open spec fn entity_messages(e: WorldEntityValue) -> Seq<MessageValue> {
    seq![MessageValue::NewEnt(e.handle.authoritative_id())] + look_messages(e) + place_messages(e)
}

/// What announces a whole world, entity after entity in the world's order.
pub open spec fn snapshot_messages(world: Seq<WorldEntityValue>) -> Seq<MessageValue>
    decreases world.len(),
{
    if world.len() == 0 {
        Seq::empty()
    } else {
        snapshot_messages(world.drop_last()) + entity_messages(world.last())
    }
}

/// Whether some entity of `world` goes by the authoritative id `id`.
pub open spec fn announces(world: Seq<WorldEntityValue>, id: u32) -> bool {
    exists|i: int| 0 <= i < world.len() && #[trigger] world[i].handle.authoritative_id() == id
}

/// What gives the player of `own` its viewpoint: the viewpoint on its own entity, behind the
/// announcement of that entity where `world` has not announced it.
pub open spec fn viewpoint_messages(world: Seq<WorldEntityValue>, own: EntityHandle) -> Seq<
    MessageValue,
> {
    let viewpoint = MessageValue::InsertComp(own.authoritative_id(), ComponentValue::Camera);
    if announces(world, own.authoritative_id()) {
        seq![viewpoint]
    } else {
        seq![MessageValue::NewEnt(own.authoritative_id()), viewpoint]
    }
}

/// What welcomes the player of `own`: the whole world, and then the viewpoint on its own
/// entity. No entity is described before it is announced, the player's own included.
pub open spec fn welcome_messages(world: Seq<WorldEntityValue>, own: EntityHandle) -> Seq<
    MessageValue,
> {
    snapshot_messages(world) + viewpoint_messages(world, own)
}

/// The frames of `msgs`, each addressed to `addr`.
pub open spec fn frames_for(addr: u64, msgs: Seq<MessageValue>) -> Seq<(u64, Seq<u8>)> {
    msgs.map_values(|m: MessageValue| (addr, message_bytes(m)))
}

/// The welcomes of the endpoints `pending`, one whole welcome after the other.
pub open spec fn welcomes(
    table: Map<u64, EntityHandle>,
    pending: Seq<u64>,
    world: Seq<WorldEntityValue>,
) -> Seq<(u64, Seq<u8>)>
    decreases pending.len(),
{
    if pending.len() == 0 {
        Seq::empty()
    } else {
        welcomes(table, pending.drop_last(), world) + frames_for(
            pending.last(),
            welcome_messages(world, table[pending.last()]),
        )
    }
}

/// The frames that `outbound` holds for `addr`, in order: the outbound stream of `addr`.
pub open spec fn stream_of(outbound: Seq<(u64, Seq<u8>)>, addr: u64) -> Seq<Seq<u8>>
    decreases outbound.len(),
{
    if outbound.len() == 0 {
        Seq::empty()
    } else if outbound.last().0 == addr {
        stream_of(outbound.drop_last(), addr).push(outbound.last().1)
    } else {
        stream_of(outbound.drop_last(), addr)
    }
}

proof fn lemma_frames_for_add(addr: u64, a: Seq<MessageValue>, b: Seq<MessageValue>)
    ensures
        frames_for(addr, a + b) == frames_for(addr, a) + frames_for(addr, b),
{
    assert(frames_for(addr, a + b) =~= frames_for(addr, a) + frames_for(addr, b));
}

/// Sends the world to every endpoint that is logging in.
pub struct SendWorldToNewPlayers;

impl SendWorldToNewPlayers {
    /// Tells `addr` about every entity of `world`, in order.
    fn send_snapshot(cm: &mut ConnectionManager, addr: u64, world: &Vec<WorldEntity>)
        requires
            old(cm).wf(),
            old(cm)@.table.contains_key(addr),
        ensures
            final(cm).wf(),
            final(cm)@ == (Connections {
                outbound: old(cm)@.outbound + frames_for(
                    addr,
                    snapshot_messages(world_values(world@)),
                ),
                ..old(cm)@
            }),
    {
        let ghost all = world_values(world@);
        let mut j: usize = 0;
        proof {
            assert(old(cm)@.outbound + frames_for(addr, snapshot_messages(all.take(0)))
                =~= old(cm)@.outbound);
        }
        while j < world.len()
            invariant
                0 <= j <= world@.len(),
                all == world_values(world@),
                cm.wf(),
                cm@.table.contains_key(addr),
                cm@ == (Connections {
                    outbound: old(cm)@.outbound + frames_for(
                        addr,
                        snapshot_messages(all.take(j as int)),
                    ),
                    ..old(cm)@
                }),
            decreases world@.len() - j,
        {
            let ghost sent = snapshot_messages(all.take(j as int));
            let ghost base = cm@.outbound;
            let entity = &world[j];
            let id: u32 = entity.handle.authoritative_id();
            cm.new_ent(addr, entity.handle);
            match &entity.appearance {
                Some(appearance) => {
                    let look = NetComponent::Appearance(appearance.duplicate());
                    cm.announce_component(addr, entity.handle, &look);
                },
                None => {},
            }
            match entity.position {
                Some(position) => {
                    let place = NetComponent::SimplePosition(position);
                    cm.announce_component(addr, entity.handle, &place);
                },
                None => {},
            }
            proof {
                assert(all[j as int] == entity@);
                assert(all.take(j + 1).drop_last() =~= all.take(j as int));
                assert(all.take(j + 1).last() == entity@);
                lemma_frames_for_add(addr, sent, entity_messages(entity@));
                assert(cm@.outbound =~= base + frames_for(addr, entity_messages(entity@)));
                assert(cm@.outbound =~= old(cm)@.outbound + frames_for(
                    addr,
                    snapshot_messages(all.take(j + 1)),
                ));
            }
            j = j + 1;
        }
        proof {
            assert(all.take(world@.len() as int) =~= all);
        }
    }

    /// Whether some entity of `world` goes by the authoritative id `id`.
    fn world_announces(world: &Vec<WorldEntity>, id: u32) -> (found: bool)
        ensures
            found == announces(world_values(world@), id),
    {
        let mut j: usize = 0;
        while j < world.len()
            invariant
                0 <= j <= world@.len(),
                forall|i: int|
                    0 <= i < j ==> (#[trigger] world_values(world@)[i]).handle.authoritative_id()
                        != id,
            decreases world@.len() - j,
        {
            if world[j].handle.authoritative_id() == id {
                proof {
                    assert(world_values(world@)[j as int].handle.authoritative_id() == id);
                }
                return true;
            }
            j = j + 1;
        }
        false
    }

    /// One tick of welcoming. Every endpoint that is logging in loses that mark and is sent,
    /// on its own stream and on no other, the whole of `world` and then the viewpoint on its
    /// own entity, which is announced first if `world` does not hold it. The endpoints are
    /// served in the order of their first contact.
    pub fn run(&mut self, cm: &mut ConnectionManager, world: &Vec<WorldEntity>)
        requires
            old(cm).wf(),
        ensures
            final(cm).wf(),
            final(cm)@ == (Connections {
                logging_in: Seq::<u64>::empty(),
                outbound: old(cm)@.outbound + welcomes(
                    old(cm)@.table,
                    old(cm)@.logging_in,
                    world_values(world@),
                ),
                ..old(cm)@
            }),
    {
        let ghost all = world_values(world@);
        let ghost table = cm@.table;
        let pending = cm.take_logging_in();
        let mut i: usize = 0;
        proof {
            assert(old(cm)@.outbound + welcomes(table, pending@.take(0), all)
                =~= old(cm)@.outbound);
        }
        while i < pending.len()
            invariant
                0 <= i <= pending@.len(),
                all == world_values(world@),
                table == old(cm)@.table,
                pending@ == old(cm)@.logging_in,
                forall|k: int|
                    0 <= k < pending@.len() ==> table.contains_key(#[trigger] pending@[k]),
                cm.wf(),
                cm@ == (Connections {
                    logging_in: Seq::<u64>::empty(),
                    outbound: old(cm)@.outbound + welcomes(table, pending@.take(i as int), all),
                    ..old(cm)@
                }),
            decreases pending@.len() - i,
        {
            let addr: u64 = pending[i];
            let ghost base = cm@.outbound;
            match cm.addr_to_ent().lookup(addr) {
                Some(own) => {
                    Self::send_snapshot(cm, addr, world);
                    let ghost sent = cm@.outbound;
                    if !Self::world_announces(world, own.authoritative_id()) {
                        cm.new_ent(addr, own);
                    }
                    let viewpoint = NetComponent::Camera(Camera);
                    cm.announce_component(addr, own, &viewpoint);
                    proof {
                        lemma_frames_for_add(
                            addr,
                            snapshot_messages(all),
                            viewpoint_messages(all, own),
                        );
                        assert(cm@.outbound =~= sent + frames_for(
                            addr,
                            viewpoint_messages(all, own),
                        ));
                        assert(pending@.take(i + 1).drop_last() =~= pending@.take(i as int));
                        assert(pending@.take(i + 1).last() == addr);
                        assert(cm@.outbound =~= base + frames_for(
                            addr,
                            welcome_messages(all, own),
                        ));
                        assert(cm@.outbound =~= old(cm)@.outbound + welcomes(
                            table,
                            pending@.take(i + 1),
                            all,
                        ));
                    }
                },
                None => {
                    proof {
                        assert(table.contains_key(pending@[i as int]));
                    }
                },
            }
            i = i + 1;
        }
        proof {
            assert(pending@.take(pending@.len() as int) =~= pending@);
        }
    }
}

/// The frames of `msgs`, unaddressed.
pub open spec fn frames_of(msgs: Seq<MessageValue>) -> Seq<Seq<u8>> {
    msgs.map_values(|m: MessageValue| message_bytes(m))
}

/// Two endpoints that log in against the same world are told the same about it, message for
/// message. What each is told beyond that concerns its own entity alone: the viewpoint on it,
/// which ends the welcome, behind its announcement where the world has not announced it.
pub proof fn law_welcome_differs_only_in_viewpoint(
    world: Seq<WorldEntityValue>,
    a: EntityHandle,
    b: EntityHandle,
)
    ensures
        welcome_messages(world, a).take(snapshot_messages(world).len() as int)
            == snapshot_messages(world),
        welcome_messages(world, b).take(snapshot_messages(world).len() as int)
            == snapshot_messages(world),
        welcome_messages(world, a).skip(snapshot_messages(world).len() as int)
            == viewpoint_messages(world, a),
        welcome_messages(world, b).skip(snapshot_messages(world).len() as int)
            == viewpoint_messages(world, b),
        welcome_messages(world, a).last() == MessageValue::InsertComp(
            a.authoritative_id(),
            ComponentValue::Camera,
        ),
        welcome_messages(world, b).last() == MessageValue::InsertComp(
            b.authoritative_id(),
            ComponentValue::Camera,
        ),
        announces(world, a.authoritative_id()) && announces(world, b.authoritative_id())
            ==> welcome_messages(world, a).drop_last() == welcome_messages(world, b).drop_last(),
{
    let n = snapshot_messages(world).len() as int;
    assert(welcome_messages(world, a).take(n) =~= snapshot_messages(world));
    assert(welcome_messages(world, b).take(n) =~= snapshot_messages(world));
    assert(welcome_messages(world, a).skip(n) =~= viewpoint_messages(world, a));
    assert(welcome_messages(world, b).skip(n) =~= viewpoint_messages(world, b));
    if announces(world, a.authoritative_id()) && announces(world, b.authoritative_id()) {
        assert(welcome_messages(world, a).drop_last() =~= snapshot_messages(world));
        assert(welcome_messages(world, b).drop_last() =~= snapshot_messages(world));
    }
}

proof fn lemma_stream_of_add(a: Seq<(u64, Seq<u8>)>, b: Seq<(u64, Seq<u8>)>, addr: u64)
    ensures
        stream_of(a + b, addr) == stream_of(a, addr) + stream_of(b, addr),
    decreases b.len(),
{
    if b.len() == 0 {
        assert(a + b =~= a);
        assert(stream_of(a, addr) + stream_of(b, addr) =~= stream_of(a, addr));
    } else {
        assert((a + b).drop_last() =~= a + b.drop_last());
        assert((a + b).last() == b.last());
        lemma_stream_of_add(a, b.drop_last(), addr);
        if b.last().0 == addr {
            assert(stream_of(a + b, addr) =~= stream_of(a, addr) + stream_of(b, addr));
        }
    }
}

proof fn lemma_stream_of_frames_for(to: u64, msgs: Seq<MessageValue>, addr: u64)
    ensures
        stream_of(frames_for(to, msgs), addr) == if to == addr {
            frames_of(msgs)
        } else {
            Seq::<Seq<u8>>::empty()
        },
    decreases msgs.len(),
{
    let frames = frames_for(to, msgs);
    if msgs.len() == 0 {
        assert(frames_of(msgs) =~= Seq::<Seq<u8>>::empty());
    } else {
        assert(frames.drop_last() =~= frames_for(to, msgs.drop_last()));
        lemma_stream_of_frames_for(to, msgs.drop_last(), addr);
        if to == addr {
            assert(frames_of(msgs) =~= frames_of(msgs.drop_last()).push(
                message_bytes(msgs.last()),
            ));
        }
    }
}

/// A tick of welcoming adds to the stream of each endpoint that was logging in exactly its own
/// welcome, and adds nothing to the stream of any other endpoint.
pub proof fn law_welcome_reaches_only_its_endpoint(
    table: Map<u64, EntityHandle>,
    pending: Seq<u64>,
    world: Seq<WorldEntityValue>,
    before: Seq<(u64, Seq<u8>)>,
    addr: u64,
)
    requires
        pending.no_duplicates(),
    ensures
        stream_of(before + welcomes(table, pending, world), addr) == if pending.contains(addr) {
            stream_of(before, addr) + frames_of(welcome_messages(world, table[addr]))
        } else {
            stream_of(before, addr)
        },
    decreases pending.len(),
{
    lemma_stream_of_add(before, welcomes(table, pending, world), addr);
    if pending.len() == 0 {
        assert(stream_of(before, addr) + Seq::<Seq<u8>>::empty() =~= stream_of(before, addr));
    } else {
        let front = pending.drop_last();
        let last = pending.last();
        let tail = frames_for(last, welcome_messages(world, table[last]));
        law_welcome_reaches_only_its_endpoint(table, front, world, before, addr);
        lemma_stream_of_add(before, welcomes(table, front, world), addr);
        lemma_stream_of_add(welcomes(table, front, world), tail, addr);
        lemma_stream_of_frames_for(last, welcome_messages(world, table[last]), addr);
        assert(pending.contains(last)) by {
            assert(pending[pending.len() - 1] == last);
        }
        if last == addr {
            assert(!front.contains(addr)) by {
                if front.contains(addr) {
                    let i = choose|i: int| 0 <= i < front.len() && front[i] == addr;
                    assert(pending[i] == pending[pending.len() - 1]);
                }
            }
            assert(stream_of(welcomes(table, front, world), addr) + frames_of(
                welcome_messages(world, table[addr]),
            ) =~= frames_of(welcome_messages(world, table[addr]))) by {
                assert(stream_of(before, addr) + stream_of(welcomes(table, front, world), addr)
                    == stream_of(before, addr));
                assert(stream_of(welcomes(table, front, world), addr).len() == 0);
            }
        } else {
            assert(front.contains(addr) == pending.contains(addr)) by {
                if pending.contains(addr) {
                    let i = choose|i: int| 0 <= i < pending.len() && pending[i] == addr;
                    assert(front[i] == addr);
                }
                if front.contains(addr) {
                    let i = choose|i: int| 0 <= i < front.len() && front[i] == addr;
                    assert(pending[i] == addr);
                }
            }
            assert(stream_of(welcomes(table, front, world), addr) + Seq::<Seq<u8>>::empty()
                =~= stream_of(welcomes(table, front, world), addr));
        }
    }
}

/// A snapshot never describes an entity that it has not announced: every component in it comes
/// after the `NewEnt` of its entity, so that a client that takes the messages in order knows
/// each entity before it hears of its components.
pub proof fn law_snapshot_announces_before_it_describes(
    world: Seq<WorldEntityValue>,
    k: int,
    id: u32,
    component: ComponentValue,
)
    requires
        0 <= k < snapshot_messages(world).len(),
        snapshot_messages(world)[k] == MessageValue::InsertComp(id, component),
    ensures
        exists|j: int| 0 <= j < k && snapshot_messages(world)[j] == MessageValue::NewEnt(id),
    decreases world.len(),
{
    if world.len() > 0 {
        let front = snapshot_messages(world.drop_last());
        let last = entity_messages(world.last());
        if k < front.len() {
            law_snapshot_announces_before_it_describes(world.drop_last(), k, id, component);
            let j = choose|j: int| 0 <= j < k && front[j] == MessageValue::NewEnt(id);
            assert(snapshot_messages(world)[j] == MessageValue::NewEnt(id));
        } else {
            let at = front.len() as int;
            assert(snapshot_messages(world)[at] == last[0]);
            assert(snapshot_messages(world)[k] == last[k - at]);
            assert(last[0] == MessageValue::NewEnt(world.last().handle.authoritative_id()));
            assert(at < k);
            assert(snapshot_messages(world)[at] == MessageValue::NewEnt(id));
        }
    }
}

/// A snapshot leaves out no entity of the world and none of its components: each entity is
/// announced, and its look and its place are told where it has them.
pub proof fn law_snapshot_is_complete(world: Seq<WorldEntityValue>, i: int)
    requires
        0 <= i < world.len(),
    ensures
        snapshot_messages(world).contains(
            MessageValue::NewEnt(world[i].handle.authoritative_id()),
        ),
        world[i].position matches Some(position) ==> snapshot_messages(world).contains(
            MessageValue::InsertComp(
                world[i].handle.authoritative_id(),
                ComponentValue::SimplePosition(position),
            ),
        ),
        world[i].appearance matches Some(path) ==> snapshot_messages(world).contains(
            MessageValue::InsertComp(
                world[i].handle.authoritative_id(),
                ComponentValue::Appearance(path),
            ),
        ),
    decreases world.len(),
{
    let all = snapshot_messages(world);
    let front = snapshot_messages(world.drop_last());
    let last = entity_messages(world.last());
    let at = front.len() as int;
    let id = world[i].handle.authoritative_id();
    if i == world.len() - 1 {
        let n = last.len() as int;
        assert(all[at] == last[0]);
        if world[i].appearance is Some {
            assert(all[at + 1] == last[1]);
        }
        if world[i].position is Some {
            assert(all[at + n - 1] == last[n - 1]);
        }
    } else {
        law_snapshot_is_complete(world.drop_last(), i);
        let a = choose|a: int| 0 <= a < front.len() && front[a] == MessageValue::NewEnt(id);
        assert(all[a] == front[a]);
        if let Some(position) = world[i].position {
            let b = choose|b: int|
                0 <= b < front.len() && front[b] == MessageValue::InsertComp(
                    id,
                    ComponentValue::SimplePosition(position),
                );
            assert(all[b] == front[b]);
        }
        if let Some(path) = world[i].appearance {
            let c = choose|c: int|
                0 <= c < front.len() && front[c] == MessageValue::InsertComp(
                    id,
                    ComponentValue::Appearance(path),
                );
            assert(all[c] == front[c]);
        }
    }
}

/// A snapshot speaks of the entities of the world and of no other: whatever it announces or
/// describes goes by the id of an entity of the world.
pub proof fn law_snapshot_names_only_the_world(world: Seq<WorldEntityValue>, k: int)
    requires
        0 <= k < snapshot_messages(world).len(),
    ensures
        match snapshot_messages(world)[k] {
            MessageValue::NewEnt(id) => announces(world, id),
            MessageValue::InsertComp(id, _) => announces(world, id),
        },
    decreases world.len(),
{
    if world.len() > 0 {
        let front = snapshot_messages(world.drop_last());
        let last = entity_messages(world.last());
        if k < front.len() {
            law_snapshot_names_only_the_world(world.drop_last(), k);
            let id = match front[k] {
                MessageValue::NewEnt(id) => id,
                MessageValue::InsertComp(id, _) => id,
            };
            let rest = world.drop_last();
            let i = choose|i: int|
                0 <= i < rest.len() && #[trigger] rest[i].handle.authoritative_id() == id;
            assert(world[i].handle.authoritative_id() == id);
        } else {
            let at = front.len() as int;
            assert(snapshot_messages(world)[k] == last[k - at]);
            assert(world[world.len() - 1].handle.authoritative_id()
                == world.last().handle.authoritative_id());
        }
    }
}

/// A welcome never describes an entity that it has not announced, the newcomer's own entity
/// included: every component in it, the viewpoint too, comes after the `NewEnt` of its entity.
pub proof fn law_welcome_announces_before_it_describes(
    world: Seq<WorldEntityValue>,
    own: EntityHandle,
    k: int,
    id: u32,
    component: ComponentValue,
)
    requires
        0 <= k < welcome_messages(world, own).len(),
        welcome_messages(world, own)[k] == MessageValue::InsertComp(id, component),
    ensures
        exists|j: int|
            0 <= j < k && welcome_messages(world, own)[j] == MessageValue::NewEnt(id),
{
    let snapshot = snapshot_messages(world);
    let welcome = welcome_messages(world, own);
    let n = snapshot.len() as int;
    if k < n {
        assert(welcome[k] == snapshot[k]);
        law_snapshot_announces_before_it_describes(world, k, id, component);
        let j = choose|j: int| 0 <= j < k && snapshot[j] == MessageValue::NewEnt(id);
        assert(welcome[j] == MessageValue::NewEnt(id));
    } else {
        assert(welcome[k] == viewpoint_messages(world, own)[k - n]);
        assert(id == own.authoritative_id());
        if announces(world, id) {
            let i = choose|i: int|
                0 <= i < world.len() && #[trigger] world[i].handle.authoritative_id() == id;
            law_snapshot_is_complete(world, i);
            let j = choose|j: int| 0 <= j < n && snapshot[j] == MessageValue::NewEnt(id);
            assert(welcome[j] == MessageValue::NewEnt(id));
        } else {
            assert(welcome[n] == viewpoint_messages(world, own)[0]);
            assert(k == n + 1);
        }
    }
}

/// A welcome speaks of the entities of the world and of the newcomer's own entity, and of no
/// other.
pub proof fn law_welcome_names_only_the_world_and_the_newcomer(
    world: Seq<WorldEntityValue>,
    own: EntityHandle,
    k: int,
)
    requires
        0 <= k < welcome_messages(world, own).len(),
    ensures
        match welcome_messages(world, own)[k] {
            MessageValue::NewEnt(id) => announces(world, id) || id == own.authoritative_id(),
            MessageValue::InsertComp(id, _) => announces(world, id) || id
                == own.authoritative_id(),
        },
{
    let n = snapshot_messages(world).len() as int;
    if k < n {
        assert(welcome_messages(world, own)[k] == snapshot_messages(world)[k]);
        law_snapshot_names_only_the_world(world, k);
    } else {
        assert(welcome_messages(world, own)[k] == viewpoint_messages(world, own)[k - n]);
    }
}

/// A welcome announces no entity twice over what the world holds: the newcomer's own entity
/// is announced by the welcome itself only where the world does not announce it, and the
/// viewpoint is told once, at the end.
pub proof fn law_welcome_ends_with_one_viewpoint(world: Seq<WorldEntityValue>, own: EntityHandle)
    ensures
        welcome_messages(world, own).len() == snapshot_messages(world).len() + (if announces(
            world,
            own.authoritative_id(),
        ) {
            1int
        } else {
            2int
        }),
        welcome_messages(world, own).last() == MessageValue::InsertComp(
            own.authoritative_id(),
            ComponentValue::Camera,
        ),
        forall|k: int|
            0 <= k < welcome_messages(world, own).len() - 1 ==> !(#[trigger] welcome_messages(
                world,
                own,
            )[k] matches MessageValue::InsertComp(_, ComponentValue::Camera)),
{
    let snapshot = snapshot_messages(world);
    let welcome = welcome_messages(world, own);
    let n = snapshot.len() as int;
    assert forall|k: int| 0 <= k < welcome.len() - 1 implies !(#[trigger] welcome[k] matches
        MessageValue::InsertComp(_, ComponentValue::Camera)) by {
        if k < n {
            assert(welcome[k] == snapshot[k]);
            lemma_snapshot_tells_no_viewpoint(world, k);
        } else {
            assert(welcome[k] == viewpoint_messages(world, own)[k - n]);
        }
    }
}

proof fn lemma_snapshot_tells_no_viewpoint(world: Seq<WorldEntityValue>, k: int)
    requires
        0 <= k < snapshot_messages(world).len(),
    ensures
        !(snapshot_messages(world)[k] matches MessageValue::InsertComp(_, ComponentValue::Camera)),
    decreases world.len(),
{
    if world.len() > 0 {
        let front = snapshot_messages(world.drop_last());
        let last = entity_messages(world.last());
        if k < front.len() {
            lemma_snapshot_tells_no_viewpoint(world.drop_last(), k);
        } else {
            assert(snapshot_messages(world)[k] == last[k - front.len()]);
        }
    }
}

} // verus!
