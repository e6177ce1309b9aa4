use replication::client::HandleServerPackets;
use replication::dispatch::{DeferredWrite, DeferredWrites, DispatchError, Outcome};
use replication::server_connection::{ServerConnection, SELF_ID};
use replication::table::IdentityTable;
use replication::wire::codec::{decode, encode, DecodeError};
use replication::wire::component::{
    Appearance, Camera, Heading, Looking, NetComponent, Vector3,
};
use replication::wire::message::NetMessage;
use replication::world::{is_alive, EntityHandle};
use specs::{World, WorldExt};

fn looking(x: u32) -> NetComponent {
    NetComponent::Looking(Looking { dir: Vector3 { x, y: 0, z: 0 } })
}

fn bound(outcome: &Outcome) -> EntityHandle {
    match outcome {
        Outcome::Bound { handle, .. } => *handle,
        other => panic!("not bound: {:?}", other),
    }
}

#[test]
fn new_entity_then_component_schedules_a_write() {
    let mut world = World::new();
    let mut system = HandleServerPackets::new();
    let mut lu = DeferredWrites::new();
    let mut queue = vec![
        NetMessage::NewEnt(7),
        NetMessage::InsertComp(7, NetComponent::Appearance(Appearance::new("hi"))),
    ];
    let outcomes = system.run(&mut world.entities_mut(), &mut lu, Some(&mut queue));

    assert!(queue.is_empty());
    assert_eq!(outcomes.len(), 2);
    let local = bound(&outcomes[0]);
    assert_eq!(outcomes[0], Outcome::Bound { key: 7, handle: local });
    assert_eq!(outcomes[1], Outcome::Scheduled { key: 7, target: local });
    assert!(is_alive(&world.entities(), local));
    assert_eq!(system.server_to_local_ids.lookup(7), Some(local));
    assert_eq!(
        lu.take(),
        vec![DeferredWrite {
            target: local,
            component: NetComponent::Appearance(Appearance::new("hi")),
        }]
    );
    assert_eq!(lu.len(), 0);
}

#[test]
fn component_before_new_entity_is_dropped_and_reported() {
    let mut world = World::new();
    let bystander = world.entities().create();
    let mut system = HandleServerPackets::new();
    let mut lu = DeferredWrites::new();
    let mut queue = vec![NetMessage::InsertComp(7, looking(1)), NetMessage::NewEnt(7)];
    let outcomes = system.run(&mut world.entities_mut(), &mut lu, Some(&mut queue));

    assert_eq!(outcomes[0], Outcome::Dropped { key: 7, error: DispatchError::UnknownId });
    let local = bound(&outcomes[1]);
    assert_ne!(local.index, bystander.id());
    assert_eq!(lu.len(), 0);

    let mut later = vec![NetMessage::InsertComp(7, looking(2))];
    let outcomes = system.run(&mut world.entities_mut(), &mut lu, Some(&mut later));
    assert_eq!(outcomes, vec![Outcome::Scheduled { key: 7, target: local }]);
    assert_eq!(lu.take(), vec![DeferredWrite { target: local, component: looking(2) }]);
}

#[test]
fn a_bad_message_does_not_stop_the_ones_behind_it() {
    let mut world = World::new();
    let mut system = HandleServerPackets::new();
    let mut lu = DeferredWrites::new();
    let mut queue = vec![
        NetMessage::NewEnt(1),
        NetMessage::InsertComp(9, looking(1)),
        NetMessage::InsertComp(1, looking(2)),
        NetMessage::InsertComp(8, looking(3)),
        NetMessage::InsertComp(1, looking(4)),
    ];
    let outcomes = system.run(&mut world.entities_mut(), &mut lu, Some(&mut queue));
    let local = bound(&outcomes[0]);
    assert_eq!(
        outcomes[1..].to_vec(),
        vec![
            Outcome::Dropped { key: 9, error: DispatchError::UnknownId },
            Outcome::Scheduled { key: 1, target: local },
            Outcome::Dropped { key: 8, error: DispatchError::UnknownId },
            Outcome::Scheduled { key: 1, target: local },
        ]
    );
    assert_eq!(
        lu.take(),
        vec![
            DeferredWrite { target: local, component: looking(2) },
            DeferredWrite { target: local, component: looking(4) },
        ]
    );
}

#[test]
fn writes_are_scheduled_in_arrival_order() {
    let mut world = World::new();
    let mut system = HandleServerPackets::new();
    let mut lu = DeferredWrites::new();
    let mut queue = vec![NetMessage::NewEnt(1), NetMessage::NewEnt(2)];
    for x in 0..6 {
        queue.push(NetMessage::InsertComp(1 + x % 2, looking(x)));
    }
    let outcomes = system.run(&mut world.entities_mut(), &mut lu, Some(&mut queue));
    let first = bound(&outcomes[0]);
    let second = bound(&outcomes[1]);
    assert_ne!(first, second);
    let writes = lu.take();
    assert_eq!(writes.len(), 6);
    for (x, write) in writes.iter().enumerate() {
        assert_eq!(write.target, if x % 2 == 0 { first } else { second });
        assert_eq!(write.component, looking(x as u32));
    }
}

#[test]
fn a_contended_queue_costs_a_tick_and_no_message() {
    let mut world = World::new();
    let mut system = HandleServerPackets::new();
    let mut lu = DeferredWrites::new();
    let mut queue = vec![NetMessage::NewEnt(7), NetMessage::InsertComp(7, looking(1))];

    let before = world.entities().create();
    let skipped = system.run(&mut world.entities_mut(), &mut lu, None);
    assert!(skipped.is_empty());
    assert_eq!(lu.len(), 0);
    assert_eq!(system.server_to_local_ids.lookup(7), None);
    assert_eq!(queue.len(), 2);
    let after = world.entities().create();
    assert_eq!(after.id(), before.id() + 1);

    queue.push(NetMessage::InsertComp(7, looking(2)));
    let outcomes = system.run(&mut world.entities_mut(), &mut lu, Some(&mut queue));
    assert!(queue.is_empty());
    let local = bound(&outcomes[0]);
    assert_eq!(
        outcomes[1..].to_vec(),
        vec![
            Outcome::Scheduled { key: 7, target: local },
            Outcome::Scheduled { key: 7, target: local },
        ]
    );
    assert_eq!(lu.len(), 2);
}

#[test]
fn an_empty_queue_changes_nothing() {
    let mut world = World::new();
    let mut system = HandleServerPackets::new();
    let mut lu = DeferredWrites::new();
    let mut queue: Vec<NetMessage> = Vec::new();
    let outcomes = system.run(&mut world.entities_mut(), &mut lu, Some(&mut queue));
    assert!(outcomes.is_empty());
    assert_eq!(lu.len(), 0);
}

#[test]
fn component_for_a_dead_entity_never_reaches_the_new_occupant_of_its_slot() {
    let mut world = World::new();
    let mut system = HandleServerPackets::new();
    let mut lu = DeferredWrites::new();
    let mut queue = vec![NetMessage::NewEnt(7)];
    let outcomes = system.run(&mut world.entities_mut(), &mut lu, Some(&mut queue));
    let local = bound(&outcomes[0]);
    world.maintain();

    let entity = world.entities().entity(local.index);
    assert_eq!(entity.gen().id(), local.generation);
    world.entities().delete(entity).unwrap();
    world.maintain();
    let occupant = world.entities().create();
    assert_eq!(occupant.id(), local.index);
    assert!(world.entities().is_alive(occupant));

    let mut queue = vec![NetMessage::InsertComp(7, looking(1))];
    let outcomes = system.run(&mut world.entities_mut(), &mut lu, Some(&mut queue));
    assert_eq!(outcomes, vec![Outcome::Dropped { key: 7, error: DispatchError::DeadEntity }]);
    assert_eq!(lu.len(), 0);
    assert_eq!(system.server_to_local_ids.lookup(7), Some(local));
    assert_ne!(occupant.gen().id(), local.generation);
}

#[test]
fn announcing_an_id_again_rebinds_it() {
    let mut world = World::new();
    let mut system = HandleServerPackets::new();
    let mut lu = DeferredWrites::new();
    let mut queue = vec![
        NetMessage::NewEnt(7),
        NetMessage::NewEnt(7),
        NetMessage::InsertComp(7, looking(1)),
    ];
    let outcomes = system.run(&mut world.entities_mut(), &mut lu, Some(&mut queue));
    let first = bound(&outcomes[0]);
    let second = bound(&outcomes[1]);
    assert_ne!(first, second);
    assert_eq!(outcomes[2], Outcome::Scheduled { key: 7, target: second });
    assert_eq!(system.server_to_local_ids.holder(first), None);
    assert_eq!(system.server_to_local_ids.holder(second), Some(7));
}

#[test]
fn no_two_ids_share_a_local_entity() {
    let mut world = World::new();
    let mut system = HandleServerPackets::new();
    let mut lu = DeferredWrites::new();
    let mut queue: Vec<NetMessage> = (0..50).map(NetMessage::NewEnt).collect();
    let outcomes = system.run(&mut world.entities_mut(), &mut lu, Some(&mut queue));
    let handles: Vec<EntityHandle> = outcomes.iter().map(bound).collect();
    for i in 0..handles.len() {
        assert_eq!(system.server_to_local_ids.holder(handles[i]), Some(i as u64));
        for j in 0..handles.len() {
            if i != j {
                assert_ne!(handles[i], handles[j]);
            }
        }
    }
}

#[test]
fn a_handle_that_another_id_holds_is_refused() {
    let mut system = HandleServerPackets::new();
    let taken = EntityHandle { index: 3, generation: 1 };
    assert_eq!(system.bind_new_entity(1, taken), Outcome::Bound { key: 1, handle: taken });
    assert_eq!(system.bind_new_entity(2, taken), Outcome::Refused { key: 2, handle: taken });
    assert_eq!(system.bind_new_entity(1, taken), Outcome::Bound { key: 1, handle: taken });
    assert_eq!(system.server_to_local_ids.lookup(2), None);
    assert_eq!(system.server_to_local_ids.lookup(1), Some(taken));
}

#[test]
fn insert_component_reports_unknown_and_dead_apart() {
    let mut world = World::new();
    let entity = world.entities().create();
    let handle = EntityHandle { index: entity.id(), generation: entity.gen().id() };
    let mut table = IdentityTable::new();
    table.bind(5, handle).unwrap();
    let system = HandleServerPackets { server_to_local_ids: table };
    let mut lu = DeferredWrites::new();

    let outcome = system.insert_component(&world.entities(), &mut lu, 6, looking(1));
    assert_eq!(outcome, Outcome::Dropped { key: 6, error: DispatchError::UnknownId });
    let outcome = system.insert_component(&world.entities(), &mut lu, 5, looking(2));
    assert_eq!(outcome, Outcome::Scheduled { key: 5, target: handle });

    world.entities().delete(entity).unwrap();
    world.maintain();
    let outcome = system.insert_component(&world.entities(), &mut lu, 5, looking(3));
    assert_eq!(outcome, Outcome::Dropped { key: 5, error: DispatchError::DeadEntity });
    assert_eq!(lu.take(), vec![DeferredWrite { target: handle, component: looking(2) }]);
}

#[test]
fn component_insert_appends_to_the_deferred_writes() {
    let mut lu = DeferredWrites::new();
    let target = EntityHandle { index: 1, generation: 1 };
    NetComponent::Camera(Camera).insert(target, &mut lu);
    lu.insert(target, looking(1));
    assert_eq!(lu.len(), 2);
    assert_eq!(
        lu.take(),
        vec![
            DeferredWrite { target, component: NetComponent::Camera(Camera) },
            DeferredWrite { target, component: looking(1) },
        ]
    );
    assert!(lu.take().is_empty());
}

#[test]
fn a_client_addresses_its_own_entity_as_zero() {
    let mut sc = ServerConnection::new();
    sc.insert_comp(Looking { dir: Vector3 { x: 1, y: 2, z: 3 } });
    sc.insert_comp(Heading { dir: Vector3 { x: 4, y: 5, z: 6 } });
    let frames = sc.take_outbound();
    assert_eq!(frames.len(), 2);
    assert_eq!(SELF_ID, 0);
    assert_eq!(
        decode(&frames[0]),
        Ok(NetMessage::InsertComp(
            0,
            NetComponent::Looking(Looking { dir: Vector3 { x: 1, y: 2, z: 3 } })
        ))
    );
    assert_eq!(
        decode(&frames[1]),
        Ok(NetMessage::InsertComp(
            0,
            NetComponent::Heading(Heading { dir: Vector3 { x: 4, y: 5, z: 6 } })
        ))
    );
    assert!(sc.take_outbound().is_empty());
}

#[test]
fn send_queues_the_frame_of_the_message() {
    let mut sc = ServerConnection::new();
    sc.send(NetMessage::NewEnt(3));
    assert_eq!(sc.take_outbound(), vec![encode(&NetMessage::NewEnt(3))]);
}

#[test]
fn received_frames_feed_the_dispatch() {
    let mut world = World::new();
    let mut sc = ServerConnection::new();
    assert_eq!(sc.receive_frame(&encode(&NetMessage::NewEnt(7))), Ok(()));
    assert_eq!(sc.receive_frame(&[9, 9]), Err(DecodeError::UnknownTag(9)));
    assert_eq!(sc.receive_frame(&encode(&NetMessage::InsertComp(7, looking(1)))), Ok(()));
    assert_eq!(sc.message_queue().len(), 2);

    let mut system = HandleServerPackets::new();
    let mut lu = DeferredWrites::new();
    let outcomes = system.run(&mut world.entities_mut(), &mut lu, Some(sc.message_queue()));
    let local = bound(&outcomes[0]);
    assert_eq!(outcomes[1], Outcome::Scheduled { key: 7, target: local });
    assert!(sc.message_queue().is_empty());
}

#[test]
fn default_systems_start_empty() {
    let system = HandleServerPackets::default();
    assert_eq!(system.server_to_local_ids.lookup(0), None);
    assert_eq!(DeferredWrites::default().len(), 0);
    let mut sc = ServerConnection::default();
    assert!(sc.message_queue().is_empty());
    assert!(sc.take_outbound().is_empty());
}

#[test]
fn a_queue_without_announcements_asks_nothing_of_the_world() {
    let mut world = World::new();
    let before = world.entities().create();
    let mut system = HandleServerPackets::new();
    let mut lu = DeferredWrites::new();
    let mut queue =
        vec![NetMessage::InsertComp(1, looking(1)), NetMessage::InsertComp(2, looking(2))];
    let outcomes = system.run(&mut world.entities_mut(), &mut lu, Some(&mut queue));
    assert_eq!(outcomes.len(), 2);
    let after = world.entities().create();
    assert_eq!(after.id(), before.id() + 1);
}

#[test]
fn a_new_entity_is_alive_and_new() {
    let mut world = World::new();
    let old = world.entities().create();
    world.entities().delete(old).unwrap();
    world.maintain();
    let mut system = HandleServerPackets::new();
    let mut lu = DeferredWrites::new();
    let mut queue = vec![NetMessage::NewEnt(1), NetMessage::NewEnt(2)];
    let outcomes = system.run(&mut world.entities_mut(), &mut lu, Some(&mut queue));
    let first = bound(&outcomes[0]);
    let second = bound(&outcomes[1]);
    assert!(first.generation > 0 && second.generation > 0);
    assert!(is_alive(&world.entities(), first));
    assert!(is_alive(&world.entities(), second));
    assert_ne!((first.index, first.generation), (old.id(), old.gen().id()));
    assert_ne!((second.index, second.generation), (old.id(), old.gen().id()));
    assert_ne!(first, second);
}
