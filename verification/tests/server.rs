use replication::connection::{ConnectionManager, OutboundFrame};
use replication::dispatch::{DeferredWrite, DeferredWrites, DispatchError, Outcome};
use replication::login::{SendWorldToNewPlayers, WorldEntity};
use replication::server::HandleClientPackets;
use replication::wire::codec::{decode, encode, DecodeError};
use replication::wire::component::{
    Appearance, Camera, Heading, Isometry, Looking, NetComponent, Quaternion, SimplePosition,
    Vector3,
};
use replication::wire::message::NetMessage;
use replication::world::EntityHandle;
use specs::{World, WorldExt};

const A: u64 = 0xa;
const B: u64 = 0xb;
const C: u64 = 0xc;

fn position(x: f32) -> SimplePosition {
    SimplePosition {
        iso: Isometry {
            rotation: Quaternion { i: 0, j: 0, k: 0, w: 1.0f32.to_bits() },
            translation: Vector3 { x: x.to_bits(), y: 0, z: 0 },
        },
    }
}

fn heading(x: u32) -> NetComponent {
    NetComponent::Heading(Heading { dir: Vector3 { x, y: 0, z: 0 } })
}

fn bound(outcome: &Outcome) -> EntityHandle {
    match outcome {
        Outcome::Bound { handle, .. } => *handle,
        other => panic!("not bound: {:?}", other),
    }
}

fn stream(frames: &[OutboundFrame], endpoint: u64) -> Vec<NetMessage> {
    frames
        .iter()
        .filter(|f| f.endpoint == endpoint)
        .map(|f| decode(&f.bytes).unwrap())
        .collect()
}

fn world_with_seven_entities() -> World {
    let world = World::new();
    for _ in 0..7 {
        world.entities().create();
    }
    world
}

#[test]
fn first_contact_binds_and_marks_the_endpoint() {
    let mut world = World::new();
    let mut cm = ConnectionManager::new();
    let mut lu = DeferredWrites::new();
    cm.receive(A, NetMessage::NewEnt(0));
    let outcomes = HandleClientPackets.run(&mut cm, &mut world.entities_mut(), &mut lu);
    let own = bound(&outcomes[0]);
    assert_eq!(outcomes, vec![Outcome::Bound { key: A, handle: own }]);
    assert_eq!(cm.addr_to_ent().lookup(A), Some(own));
    assert!(cm.is_logging_in(A));
    assert!(!cm.is_logging_in(B));
    assert_eq!(cm.inbound_len(), 0);
}

#[test]
fn second_contact_from_a_bound_endpoint_is_ignored() {
    let mut world = World::new();
    let mut cm = ConnectionManager::new();
    let mut lu = DeferredWrites::new();
    cm.receive(A, NetMessage::NewEnt(0));
    cm.receive(A, NetMessage::NewEnt(5));
    assert_eq!(cm.inbound_len(), 2);
    let outcomes = HandleClientPackets.run(&mut cm, &mut world.entities_mut(), &mut lu);
    let own = bound(&outcomes[0]);
    assert_eq!(outcomes[1], Outcome::Ignored { key: A });
    assert_eq!(cm.addr_to_ent().lookup(A), Some(own));
    assert!(cm.is_logging_in(A));
    let next = world.entities().create();
    assert_eq!(next.id(), own.index + 1);
}

#[test]
fn clients_can_only_write_to_their_own_entity() {
    let mut world = World::new();
    let mut cm = ConnectionManager::new();
    let mut lu = DeferredWrites::new();
    cm.receive(A, NetMessage::NewEnt(0));
    cm.receive(B, NetMessage::NewEnt(0));
    cm.receive(A, NetMessage::InsertComp(0, heading(1)));
    cm.receive(B, NetMessage::InsertComp(0, heading(2)));
    let outcomes = HandleClientPackets.run(&mut cm, &mut world.entities_mut(), &mut lu);
    let a = bound(&outcomes[0]);
    let b = bound(&outcomes[1]);
    assert_ne!(a, b);
    assert_eq!(outcomes[2], Outcome::Scheduled { key: A, target: a });
    assert_eq!(outcomes[3], Outcome::Scheduled { key: B, target: b });

    cm.receive(A, NetMessage::InsertComp(b.index, heading(3)));
    let outcomes = HandleClientPackets.run(&mut cm, &mut world.entities_mut(), &mut lu);
    assert_eq!(outcomes, vec![Outcome::Scheduled { key: A, target: a }]);
    assert_eq!(
        lu.take(),
        vec![
            DeferredWrite { target: a, component: heading(1) },
            DeferredWrite { target: b, component: heading(2) },
            DeferredWrite { target: a, component: heading(3) },
        ]
    );
}

#[test]
fn component_from_an_unregistered_endpoint_is_reported_not_fatal() {
    let mut world = World::new();
    let mut cm = ConnectionManager::new();
    let mut lu = DeferredWrites::new();
    cm.receive(C, NetMessage::InsertComp(0, heading(1)));
    cm.receive(A, NetMessage::NewEnt(0));
    cm.receive(A, NetMessage::InsertComp(0, heading(2)));
    let outcomes = HandleClientPackets.run(&mut cm, &mut world.entities_mut(), &mut lu);
    assert_eq!(outcomes[0], Outcome::Dropped { key: C, error: DispatchError::UnknownTarget });
    let a = bound(&outcomes[1]);
    assert_eq!(outcomes[2], Outcome::Scheduled { key: A, target: a });
    assert_eq!(lu.len(), 1);
}

#[test]
fn component_from_a_client_whose_entity_died_is_reported_not_fatal() {
    let mut world = World::new();
    let mut cm = ConnectionManager::new();
    let mut lu = DeferredWrites::new();
    cm.receive(A, NetMessage::NewEnt(0));
    let outcomes = HandleClientPackets.run(&mut cm, &mut world.entities_mut(), &mut lu);
    let a = bound(&outcomes[0]);
    world.maintain();
    let entity = world.entities().entity(a.index);
    world.entities().delete(entity).unwrap();
    world.maintain();
    let occupant = world.entities().create();
    assert_eq!(occupant.id(), a.index);

    cm.receive(A, NetMessage::InsertComp(0, heading(1)));
    let outcomes = HandleClientPackets.run(&mut cm, &mut world.entities_mut(), &mut lu);
    assert_eq!(outcomes, vec![Outcome::Dropped { key: A, error: DispatchError::UnknownTarget }]);
    assert_eq!(lu.len(), 0);
}

#[test]
fn component_from_a_disconnected_client_is_reported_not_fatal() {
    let mut world = World::new();
    let mut cm = ConnectionManager::new();
    let mut lu = DeferredWrites::new();
    cm.receive(A, NetMessage::NewEnt(0));
    cm.receive(A, NetMessage::InsertComp(0, heading(1)));
    let outcomes = HandleClientPackets.run(&mut cm, &mut world.entities_mut(), &mut lu);
    let a = bound(&outcomes[0]);
    assert_eq!(cm.disconnect(A), Some(a));
    assert_eq!(cm.disconnect(A), None);

    cm.receive(A, NetMessage::InsertComp(0, heading(2)));
    let outcomes = HandleClientPackets.run(&mut cm, &mut world.entities_mut(), &mut lu);
    assert_eq!(outcomes, vec![Outcome::Dropped { key: A, error: DispatchError::UnknownTarget }]);
    assert_eq!(lu.take(), vec![DeferredWrite { target: a, component: heading(1) }]);
    assert!(!cm.is_logging_in(A));
}

#[test]
fn no_two_endpoints_share_an_entity() {
    let mut world = World::new();
    let mut cm = ConnectionManager::new();
    let mut lu = DeferredWrites::new();
    for addr in 0..40u64 {
        cm.receive(addr, NetMessage::NewEnt(0));
    }
    let outcomes = HandleClientPackets.run(&mut cm, &mut world.entities_mut(), &mut lu);
    let handles: Vec<EntityHandle> = outcomes.iter().map(bound).collect();
    for (addr, handle) in handles.iter().enumerate() {
        assert_eq!(cm.addr_to_ent().holder(*handle), Some(addr as u64));
        assert_eq!(cm.addr_to_ent().lookup(addr as u64), Some(*handle));
    }
}

#[test]
fn a_handle_that_another_endpoint_plays_is_refused() {
    let mut cm = ConnectionManager::new();
    let taken = EntityHandle { index: 3, generation: 1 };
    assert_eq!(cm.first_contact(A, taken), Outcome::Bound { key: A, handle: taken });
    assert_eq!(cm.first_contact(B, taken), Outcome::Refused { key: B, handle: taken });
    assert_eq!(cm.first_contact(A, taken), Outcome::Ignored { key: A });
    assert_eq!(cm.addr_to_ent().lookup(B), None);
    assert!(cm.is_logging_in(A));
    assert!(!cm.is_logging_in(B));
}

#[test]
fn announcements_go_to_open_connections_only() {
    let mut cm = ConnectionManager::new();
    let own = EntityHandle { index: 1, generation: 1 };
    let other = EntityHandle { index: 2, generation: 1 };
    assert!(!cm.new_ent(A, other));
    assert!(!cm.insert_comp(A, other, Camera));
    assert!(cm.take_outbound().is_empty());

    cm.first_contact(A, own);
    assert!(cm.new_ent(A, other));
    assert!(cm.insert_comp(A, other, position(1.0)));
    assert!(cm.announce_component(A, other, &NetComponent::Camera(Camera)));
    assert!(!cm.new_ent(B, other));
    let frames = cm.take_outbound();
    assert_eq!(
        stream(&frames, A),
        vec![
            NetMessage::NewEnt(2),
            NetMessage::InsertComp(2, NetComponent::SimplePosition(position(1.0))),
            NetMessage::InsertComp(2, NetComponent::Camera(Camera)),
        ]
    );
    assert!(stream(&frames, B).is_empty());

    cm.disconnect(A);
    assert!(!cm.new_ent(A, other));
    assert!(cm.take_outbound().is_empty());
}

#[test]
fn received_frames_are_queued_when_they_carry_a_message() {
    let mut world = World::new();
    let mut cm = ConnectionManager::new();
    let mut lu = DeferredWrites::new();
    assert_eq!(cm.receive_frame(A, &encode(&NetMessage::NewEnt(0))), Ok(()));
    assert_eq!(cm.receive_frame(A, &[1, 0, 0]), Err(DecodeError::Truncated));
    assert_eq!(cm.receive_frame(A, &encode(&NetMessage::InsertComp(0, heading(1)))), Ok(()));
    let outcomes = HandleClientPackets.run(&mut cm, &mut world.entities_mut(), &mut lu);
    assert_eq!(outcomes.len(), 2);
    let a = bound(&outcomes[0]);
    assert_eq!(outcomes[1], Outcome::Scheduled { key: A, target: a });
}

#[test]
fn a_newcomer_is_sent_the_world_and_then_its_viewpoint() {
    let mut world = world_with_seven_entities();
    let mut cm = ConnectionManager::new();
    let mut lu = DeferredWrites::new();
    cm.receive(A, NetMessage::NewEnt(0));
    let outcomes = HandleClientPackets.run(&mut cm, &mut world.entities_mut(), &mut lu);
    let e1 = bound(&outcomes[0]);
    assert_eq!(e1.authoritative_id(), 7);
    assert!(cm.take_outbound().is_empty());

    let snapshot = vec![WorldEntity {
        handle: e1,
        position: Some(position(2.0)),
        appearance: Some(Appearance::new("hi")),
    }];
    SendWorldToNewPlayers.run(&mut cm, &snapshot);
    let frames = cm.take_outbound();
    assert!(frames.iter().all(|f| f.endpoint == A));
    assert_eq!(
        stream(&frames, A),
        vec![
            NetMessage::NewEnt(7),
            NetMessage::InsertComp(7, NetComponent::Appearance(Appearance::new("hi"))),
            NetMessage::InsertComp(7, NetComponent::SimplePosition(position(2.0))),
            NetMessage::InsertComp(7, NetComponent::Camera(Camera)),
        ]
    );

    SendWorldToNewPlayers.run(&mut cm, &snapshot);
    assert!(cm.take_outbound().is_empty());
}

#[test]
fn a_later_newcomer_gets_the_same_world_before_anything_newer() {
    let mut world = world_with_seven_entities();
    let mut cm = ConnectionManager::new();
    let mut lu = DeferredWrites::new();
    cm.receive(A, NetMessage::NewEnt(0));
    let outcomes = HandleClientPackets.run(&mut cm, &mut world.entities_mut(), &mut lu);
    let e1 = bound(&outcomes[0]);
    let about_e1 = WorldEntity {
        handle: e1,
        position: Some(position(2.0)),
        appearance: Some(Appearance::new("hi")),
    };
    SendWorldToNewPlayers.run(&mut cm, &vec![about_e1.clone()]);
    cm.take_outbound();

    cm.receive(B, NetMessage::NewEnt(0));
    let outcomes = HandleClientPackets.run(&mut cm, &mut world.entities_mut(), &mut lu);
    let e2 = bound(&outcomes[0]);
    let about_e2 = WorldEntity { handle: e2, position: Some(position(3.0)), appearance: None };
    SendWorldToNewPlayers.run(&mut cm, &vec![about_e1.clone(), about_e2.clone()]);

    let third = world.entities().create();
    let e3 = EntityHandle { index: third.id(), generation: third.gen().id() };
    cm.new_ent(B, e3);
    cm.insert_comp(B, e3, position(4.0));

    let frames = cm.take_outbound();
    assert!(stream(&frames, A).is_empty());
    assert_eq!(
        stream(&frames, B),
        vec![
            NetMessage::NewEnt(7),
            NetMessage::InsertComp(7, NetComponent::Appearance(Appearance::new("hi"))),
            NetMessage::InsertComp(7, NetComponent::SimplePosition(position(2.0))),
            NetMessage::NewEnt(e2.index),
            NetMessage::InsertComp(e2.index, NetComponent::SimplePosition(position(3.0))),
            NetMessage::InsertComp(e2.index, NetComponent::Camera(Camera)),
            NetMessage::NewEnt(e3.index),
            NetMessage::InsertComp(e3.index, NetComponent::SimplePosition(position(4.0))),
        ]
    );
}

#[test]
fn two_newcomers_in_one_tick_differ_only_in_the_viewpoint() {
    let mut world = World::new();
    let mut cm = ConnectionManager::new();
    let mut lu = DeferredWrites::new();
    cm.receive(A, NetMessage::NewEnt(0));
    cm.receive(B, NetMessage::NewEnt(0));
    let outcomes = HandleClientPackets.run(&mut cm, &mut world.entities_mut(), &mut lu);
    let a = bound(&outcomes[0]);
    let b = bound(&outcomes[1]);
    let snapshot = vec![
        WorldEntity {
            handle: a,
            position: Some(position(1.0)),
            appearance: Some(Appearance::new("a")),
        },
        WorldEntity { handle: b, position: Some(position(2.0)), appearance: None },
        WorldEntity {
            handle: EntityHandle { index: 99, generation: 1 },
            position: Some(position(3.0)),
            appearance: Some(Appearance::new("crate")),
        },
    ];
    SendWorldToNewPlayers.run(&mut cm, &snapshot);
    let frames = cm.take_outbound();
    let to_a = stream(&frames, A);
    let to_b = stream(&frames, B);
    assert_eq!(to_a.len(), 3 + 2 + 3 + 1);
    assert_eq!(to_a.len(), to_b.len());
    assert_eq!(to_a[..to_a.len() - 1], to_b[..to_b.len() - 1]);
    assert_eq!(to_a.last(), Some(&NetMessage::InsertComp(a.index, NetComponent::Camera(Camera))));
    assert_eq!(to_b.last(), Some(&NetMessage::InsertComp(b.index, NetComponent::Camera(Camera))));
    let first_of_b = frames.iter().position(|f| f.endpoint == B).unwrap();
    assert!(frames[..first_of_b].iter().all(|f| f.endpoint == A));
    assert!(frames[first_of_b..].iter().all(|f| f.endpoint == B));
}

#[test]
fn an_endpoint_that_left_before_its_welcome_gets_none() {
    let mut world = World::new();
    let mut cm = ConnectionManager::new();
    let mut lu = DeferredWrites::new();
    cm.receive(A, NetMessage::NewEnt(0));
    cm.receive(B, NetMessage::NewEnt(0));
    cm.receive(C, NetMessage::NewEnt(0));
    HandleClientPackets.run(&mut cm, &mut world.entities_mut(), &mut lu);
    cm.disconnect(B);
    SendWorldToNewPlayers.run(&mut cm, &Vec::new());
    let frames = cm.take_outbound();
    let order: Vec<u64> = frames.iter().map(|f| f.endpoint).collect();
    assert_eq!(order, vec![A, A, C, C]);
    assert!(stream(&frames, B).is_empty());
}

#[test]
fn looking_and_heading_reach_the_server_entity() {
    let mut world = World::new();
    let mut cm = ConnectionManager::new();
    let mut lu = DeferredWrites::new();
    let intent = NetComponent::Looking(Looking { dir: Vector3 { x: 1, y: 2, z: 3 } });
    cm.receive(A, NetMessage::NewEnt(0));
    cm.receive(A, NetMessage::InsertComp(0, intent.clone()));
    let outcomes = HandleClientPackets.run(&mut cm, &mut world.entities_mut(), &mut lu);
    let a = bound(&outcomes[0]);
    assert_eq!(lu.take(), vec![DeferredWrite { target: a, component: intent }]);
}

#[test]
fn default_manager_knows_nobody() {
    let mut cm = ConnectionManager::default();
    assert_eq!(cm.inbound_len(), 0);
    assert!(!cm.is_logging_in(A));
    assert_eq!(cm.addr_to_ent().lookup(A), None);
    assert!(cm.take_outbound().is_empty());
}

#[test]
fn disconnect_keeps_the_others_waiting_in_their_order() {
    let mut cm = ConnectionManager::new();
    cm.first_contact(A, EntityHandle { index: 1, generation: 1 });
    cm.first_contact(B, EntityHandle { index: 2, generation: 1 });
    cm.first_contact(C, EntityHandle { index: 3, generation: 1 });
    assert_eq!(cm.disconnect(B), Some(EntityHandle { index: 2, generation: 1 }));
    assert!(cm.is_logging_in(A));
    assert!(!cm.is_logging_in(B));
    assert!(cm.is_logging_in(C));
    SendWorldToNewPlayers.run(&mut cm, &Vec::new());
    let order: Vec<u64> = cm.take_outbound().iter().map(|f| f.endpoint).collect();
    assert_eq!(order, vec![A, A, C, C]);
    assert!(!cm.is_logging_in(A));
    assert!(!cm.is_logging_in(C));
}

#[test]
fn a_newcomer_that_the_world_does_not_hold_is_announced_before_its_viewpoint() {
    let mut world = world_with_seven_entities();
    let mut cm = ConnectionManager::new();
    let mut lu = DeferredWrites::new();
    cm.receive(A, NetMessage::NewEnt(0));
    let outcomes = HandleClientPackets.run(&mut cm, &mut world.entities_mut(), &mut lu);
    let own = bound(&outcomes[0]);
    assert_eq!(own.index, 7);
    let other = EntityHandle { index: 3, generation: 1 };
    let snapshot = vec![WorldEntity {
        handle: other,
        position: Some(position(1.0)),
        appearance: None,
    }];
    SendWorldToNewPlayers.run(&mut cm, &snapshot);
    let frames = cm.take_outbound();
    assert_eq!(
        stream(&frames, A),
        vec![
            NetMessage::NewEnt(3),
            NetMessage::InsertComp(3, NetComponent::SimplePosition(position(1.0))),
            NetMessage::NewEnt(7),
            NetMessage::InsertComp(7, NetComponent::Camera(Camera)),
        ]
    );
}

#[test]
fn a_newcomer_that_the_world_holds_is_announced_once() {
    let mut cm = ConnectionManager::new();
    let own = EntityHandle { index: 5, generation: 2 };
    cm.first_contact(A, own);
    let snapshot = vec![
        WorldEntity { handle: own, position: None, appearance: None },
        WorldEntity {
            handle: EntityHandle { index: 6, generation: 1 },
            position: None,
            appearance: Some(Appearance::new("tree")),
        },
    ];
    SendWorldToNewPlayers.run(&mut cm, &snapshot);
    let frames = cm.take_outbound();
    assert_eq!(
        stream(&frames, A),
        vec![
            NetMessage::NewEnt(5),
            NetMessage::NewEnt(6),
            NetMessage::InsertComp(6, NetComponent::Appearance(Appearance::new("tree"))),
            NetMessage::InsertComp(5, NetComponent::Camera(Camera)),
        ]
    );
}

#[test]
fn every_component_of_a_welcome_follows_the_announcement_of_its_entity() {
    let mut cm = ConnectionManager::new();
    let own = EntityHandle { index: 9, generation: 1 };
    cm.first_contact(A, own);
    let snapshot = vec![
        WorldEntity {
            handle: EntityHandle { index: 1, generation: 1 },
            position: Some(position(1.0)),
            appearance: Some(Appearance::new("a")),
        },
        WorldEntity {
            handle: EntityHandle { index: 2, generation: 1 },
            position: None,
            appearance: Some(Appearance::new("b")),
        },
        WorldEntity {
            handle: EntityHandle { index: 3, generation: 1 },
            position: Some(position(3.0)),
            appearance: None,
        },
    ];
    SendWorldToNewPlayers.run(&mut cm, &snapshot);
    let messages = stream(&cm.take_outbound(), A);
    assert_eq!(messages.len(), 3 + 2 + 2 + 2);
    let mut announced: Vec<u32> = Vec::new();
    for message in &messages {
        match message {
            NetMessage::NewEnt(id) => {
                assert!(!announced.contains(id));
                announced.push(*id);
            }
            NetMessage::InsertComp(id, _) => assert!(announced.contains(id)),
        }
    }
    assert_eq!(announced, vec![1, 2, 3, 9]);
    assert_eq!(messages.last(), Some(&NetMessage::InsertComp(9, NetComponent::Camera(Camera))));
}

#[test]
fn a_client_understands_the_whole_welcome() {
    let mut server_world = World::new();
    let mut cm = ConnectionManager::new();
    let mut lu = DeferredWrites::new();
    cm.receive(A, NetMessage::NewEnt(0));
    let outcomes = HandleClientPackets.run(&mut cm, &mut server_world.entities_mut(), &mut lu);
    let own = bound(&outcomes[0]);
    let snapshot = vec![WorldEntity {
        handle: EntityHandle { index: 40, generation: 1 },
        position: Some(position(1.0)),
        appearance: Some(Appearance::new("hi")),
    }];
    SendWorldToNewPlayers.run(&mut cm, &snapshot);
    let mut queue = stream(&cm.take_outbound(), A);

    let mut client_world = World::new();
    let mut client = replication::client::HandleServerPackets::new();
    let mut writes = DeferredWrites::new();
    let outcomes = client.run(&mut client_world.entities_mut(), &mut writes, Some(&mut queue));
    assert_eq!(outcomes.len(), 5);
    let first = bound(&outcomes[0]);
    let second = bound(&outcomes[3]);
    assert_eq!(outcomes[1], Outcome::Scheduled { key: 40, target: first });
    assert_eq!(outcomes[2], Outcome::Scheduled { key: 40, target: first });
    assert_eq!(outcomes[4], Outcome::Scheduled { key: own.index as u64, target: second });
    assert_eq!(
        writes.take().last(),
        Some(&DeferredWrite { target: second, component: NetComponent::Camera(Camera) })
    );
}
